//! What a whole flush does: all that waited is sent, and what was sent is counted.
use vstd::prelude::*;
use vstd::seq_lib::lemma_multiset_commutative;

use crate::guard::outgoing::{step_packet, stepped, taken, Flush, FlushPhase, OutgoingGuard};
use crate::guard::send_buffer::{bare, lemma_nothing_lost, Waiting};
use crate::handover::Handover;
use crate::link::LinkView;
use crate::opts::FlushStrategy;
use crate::packet::connected::ack::{
    lemma_runs_count, lemma_runs_count_bound, lemma_runs_expand, records_count, records_expand,
    runs,
};
use crate::packet::connected::frame::Frame;
use crate::packet::connected::frame_set::frames_view;
use crate::packet::connected::packet as connected;
use crate::packet::datagram::PacketView;
use crate::packet::unconnected;
use crate::uint24::{u24, U24_RANGE};

verus! {

/// A flush, and what it works on.
pub ghost struct FlushState {
    pub flush: Flush,
    pub link: LinkView,
    pub guard: OutgoingGuard,
}

/// A step of a flush, taken at `now`.
pub ghost struct FlushStep {
    pub before: FlushState,
    pub after: FlushState,
    pub now: u64,
}

impl FlushStep {
    /// The step could be taken, and was.
    pub open spec fn was_taken(self) -> bool {
        let before = self.before;
        let after = self.after;
        &&& before.guard.wf()
        &&& before.link.wf()
        &&& before.flush.ack_cnt + before.link.outgoing_ack.len() <= usize::MAX
        &&& before.flush.nack_cnt + before.link.outgoing_nack.len() <= usize::MAX
        &&& before.flush.pack_cnt < usize::MAX
        &&& stepped(
            before.flush,
            after.flush,
            before.link,
            after.link,
            before.guard,
            after.guard,
            self.now,
        )
    }

    /// The packet that was sent, where one was.
    pub open spec fn packet(self) -> Option<PacketView> {
        step_packet(self.before.flush, self.before.link, self.after.link, self.before.guard)
    }
}

/// The flush after the steps.
pub open spec fn flush_after(start: Flush, steps: Seq<FlushStep>) -> Flush {
    if steps.len() == 0 {
        start
    } else {
        steps.last().after.flush
    }
}

/// The flush, the link and the guard after the steps.
pub open spec fn state_after(start: FlushState, steps: Seq<FlushStep>) -> FlushState {
    if steps.len() == 0 {
        start
    } else {
        steps.last().after
    }
}

/// The steps are those of one flush, one after the other. More may have come to wait in between.
pub open spec fn flush_run(start: Flush, steps: Seq<FlushStep>) -> bool
    decreases steps.len(),
{
    steps.len() > 0 ==> {
        &&& flush_run(start, steps.drop_last())
        &&& steps.last().was_taken()
        &&& steps.last().before.flush == flush_after(start, steps.drop_last())
    }
}

/// The steps are those of one flush, one after the other, and nothing came to wait in between.
pub open spec fn quiet_run(start: FlushState, steps: Seq<FlushStep>) -> bool
    decreases steps.len(),
{
    steps.len() > 0 ==> {
        &&& quiet_run(start, steps.drop_last())
        &&& steps.last().was_taken()
        &&& steps.last().before == state_after(start, steps.drop_last())
    }
}

/// The packets that were sent, in order.
pub open spec fn sent(steps: Seq<FlushStep>) -> Seq<PacketView>
    decreases steps.len(),
{
    if steps.len() == 0 {
        Seq::empty()
    } else {
        match steps.last().packet() {
            Some(p) => sent(steps.drop_last()).push(p),
            None => sent(steps.drop_last()),
        }
    }
}

/// How many numbers the ACKs among the packets count.
pub open spec fn acks_counted(ps: Seq<PacketView>) -> nat
    decreases ps.len(),
{
    if ps.len() == 0 {
        0
    } else {
        acks_counted(ps.drop_last()) + match ps.last() {
            PacketView::Connected(connected::PacketView::Ack(rs)) => records_count(rs),
            _ => 0,
        }
    }
}

/// How many numbers the NACKs among the packets count.
pub open spec fn nacks_counted(ps: Seq<PacketView>) -> nat
    decreases ps.len(),
{
    if ps.len() == 0 {
        0
    } else {
        nacks_counted(ps.drop_last()) + match ps.last() {
            PacketView::Connected(connected::PacketView::Nack(rs)) => records_count(rs),
            _ => 0,
        }
    }
}

/// How many of the packets are unconnected packets or frame sets.
pub open spec fn packs_counted(ps: Seq<PacketView>) -> nat
    decreases ps.len(),
{
    if ps.len() == 0 {
        0
    } else {
        packs_counted(ps.drop_last()) + match ps.last() {
            PacketView::Unconnected(_) => 1nat,
            PacketView::Connected(connected::PacketView::FrameSet(_, _)) => 1,
            _ => 0,
        }
    }
}

/// The numbers that the packets acknowledge, in order.
pub open spec fn acks_in(ps: Seq<PacketView>) -> Seq<u24>
    decreases ps.len(),
{
    if ps.len() == 0 {
        Seq::empty()
    } else {
        acks_in(ps.drop_last()) + match ps.last() {
            PacketView::Connected(connected::PacketView::Ack(rs)) => records_expand(rs),
            _ => Seq::empty(),
        }
    }
}

/// The numbers that the packets ask for, in order.
pub open spec fn nacks_in(ps: Seq<PacketView>) -> Seq<u24>
    decreases ps.len(),
{
    if ps.len() == 0 {
        Seq::empty()
    } else {
        nacks_in(ps.drop_last()) + match ps.last() {
            PacketView::Connected(connected::PacketView::Nack(rs)) => records_expand(rs),
            _ => Seq::empty(),
        }
    }
}

/// The unconnected packets among the packets, in order.
pub open spec fn unconnected_in(ps: Seq<PacketView>) -> Seq<unconnected::Packet<Seq<u8>>>
    decreases ps.len(),
{
    if ps.len() == 0 {
        Seq::empty()
    } else {
        match ps.last() {
            PacketView::Unconnected(p) => unconnected_in(ps.drop_last()).push(p),
            _ => unconnected_in(ps.drop_last()),
        }
    }
}

/// The frames that the packets hold, in order.
pub open spec fn frames_in(ps: Seq<PacketView>) -> Seq<Frame<Seq<u8>>>
    decreases ps.len(),
{
    if ps.len() == 0 {
        Seq::empty()
    } else {
        frames_in(ps.drop_last()) + match ps.last() {
            PacketView::Connected(connected::PacketView::FrameSet(_, fs)) => fs,
            _ => Seq::empty(),
        }
    }
}

/// The unconnected packets that wait.
pub open spec fn waiting_unconnected(s: Seq<Handover>) -> Seq<unconnected::Packet<Seq<u8>>> {
    Seq::new(s.len(), |i: int| s[i]->Unconnected_0@)
}

/// The frames that wait.
pub open spec fn waiting_frames(w: Waiting) -> Seq<Frame<Seq<u8>>> {
    frames_view(w.in_order())
}

/// What one step adds to the counts.
proof fn lemma_step_counts(step: FlushStep)
    requires
        step.was_taken(),
    ensures
        step.after.flush.strategy == step.before.flush.strategy,
        match step.packet() {
            Some(PacketView::Connected(connected::PacketView::Ack(rs))) => {
                &&& step.after.flush.ack_cnt == step.before.flush.ack_cnt + records_count(rs)
                &&& step.after.flush.nack_cnt == step.before.flush.nack_cnt
                &&& step.after.flush.pack_cnt == step.before.flush.pack_cnt
            },
            Some(PacketView::Connected(connected::PacketView::Nack(rs))) => {
                &&& step.after.flush.ack_cnt == step.before.flush.ack_cnt
                &&& step.after.flush.nack_cnt == step.before.flush.nack_cnt + records_count(rs)
                &&& step.after.flush.pack_cnt == step.before.flush.pack_cnt
            },
            Some(_) => {
                &&& step.after.flush.ack_cnt == step.before.flush.ack_cnt
                &&& step.after.flush.nack_cnt == step.before.flush.nack_cnt
                &&& step.after.flush.pack_cnt == step.before.flush.pack_cnt + 1
            },
            None => {
                &&& step.after.flush.ack_cnt == step.before.flush.ack_cnt
                &&& step.after.flush.nack_cnt == step.before.flush.nack_cnt
                &&& step.after.flush.pack_cnt == step.before.flush.pack_cnt
            },
        },
{
    let link = step.before.link;
    let new_link = step.after.link;
    match step.before.flush.phase {
        FlushPhase::Ack => {
            let part = taken(link.outgoing_ack, new_link.outgoing_ack);
            if step.before.flush.strategy.acks() is Some {
                assert forall|i: int| 0 <= i < part.len() implies (#[trigger] part[i]).wf() by {
                    assert(link.outgoing_ack[i].wf());
                }
                lemma_runs_count_bound(part);
                assert(link.outgoing_ack.len() == 0 ==> runs(part) =~= Seq::empty());
            }
        },
        FlushPhase::Nack => {
            let part = taken(link.outgoing_nack, new_link.outgoing_nack);
            if step.before.flush.strategy.nacks() is Some {
                assert forall|i: int| 0 <= i < part.len() implies (#[trigger] part[i]).wf() by {
                    assert(link.outgoing_nack[i].wf());
                }
                lemma_runs_count_bound(part);
                assert(link.outgoing_nack.len() == 0 ==> runs(part) =~= Seq::empty());
            }
        },
        FlushPhase::Unconnected => {
            if link.unconnected.len() > 0 {
                assert(link.unconnected[0] is Unconnected);
            }
        },
        FlushPhase::Frames => {},
    }
}

/// The counts of a flush are those of the packets that it sent: the numbers that were
/// acknowledged, those that were asked for, and the unconnected packets and frame sets. This holds
/// after every step, whatever came to wait in between.
pub proof fn lemma_flush_counts(start: Flush, steps: Seq<FlushStep>)
    requires
        flush_run(start, steps),
    ensures
        flush_after(start, steps).strategy == start.strategy,
        flush_after(start, steps).ack_cnt == start.ack_cnt + acks_counted(sent(steps)),
        flush_after(start, steps).nack_cnt == start.nack_cnt + nacks_counted(sent(steps)),
        flush_after(start, steps).pack_cnt == start.pack_cnt + packs_counted(sent(steps)),
    decreases steps.len(),
{
    if steps.len() > 0 {
        lemma_flush_counts(start, steps.drop_last());
        lemma_step_counts(steps.last());
        let ps = sent(steps.drop_last());
        if let Some(p) = steps.last().packet() {
            assert(ps.push(p).drop_last() =~= ps);
        }
    }
}

/// The strategy that a flush leaves behind counts what was handed over, whatever came to wait in
/// between: to its counts are added the numbers that the ACKs and the NACKs count, and the
/// unconnected packets and frame sets. Where it starts from nothing, its counts are these.
pub proof fn lemma_marked_counts(start: Flush, steps: Seq<FlushStep>, marked: FlushStrategy)
    requires
        flush_run(start, steps),
        start.ack_cnt == 0,
        start.nack_cnt == 0,
        start.pack_cnt == 0,
        flush_after(start, steps).marks(marked),
    ensures
        marked.acks() == (match start.strategy.acks() {
            Some(n) => Some(n + acks_counted(sent(steps))),
            None => None,
        }),
        marked.nacks() == (match start.strategy.nacks() {
            Some(n) => Some(n + nacks_counted(sent(steps))),
            None => None,
        }),
        marked.packs() == (match start.strategy.packs() {
            Some(n) => Some(n + packs_counted(sent(steps))),
            None => None,
        }),
{
    lemma_flush_counts(start, steps);
}

proof fn lemma_quiet_run(start: FlushState, steps: Seq<FlushStep>)
    requires
        quiet_run(start, steps),
    ensures
        flush_run(start.flush, steps),
        flush_after(start.flush, steps) == state_after(start, steps).flush,
    decreases steps.len(),
{
    if steps.len() > 0 {
        lemma_quiet_run(start, steps.drop_last());
    }
}

/// What an ACK or a NACK takes away from the numbers that wait.
proof fn lemma_numbers_taken(done: Seq<u24>, s: Seq<u24>, rest: Seq<u24>, all: Seq<u24>)
    requires
        done + s == all,
        rest.len() <= s.len(),
        rest == s.skip(s.len() - rest.len()),
    ensures
        done + records_expand(runs(taken(s, rest))) + rest == all,
{
    lemma_runs_expand(taken(s, rest));
    assert(done + taken(s, rest) + rest =~= done + s);
}

proof fn lemma_frames_taken(w: Waiting, mtu: int)
    requires
        mtu >= 4,
    ensures
        frames_view(w.packet(mtu)).to_multiset().add(
            waiting_frames(w.after_packet(mtu)).to_multiset(),
        ) == waiting_frames(w).to_multiset(),
{
    let (a, b, c, d) = w.picked(mtu);
    let after = w.after_packet(mtu);
    lemma_nothing_lost(w, mtu);
    let p1 = frames_view(bare(w.resend).take(a));
    let p2 = frames_view(bare(w.high).take(b));
    let p3 = frames_view(w.medium.take(c));
    let p4 = frames_view(bare(w.low).take(d));
    let r1 = frames_view(bare(after.resend));
    let r2 = frames_view(bare(after.high));
    let r3 = frames_view(after.medium);
    let r4 = frames_view(bare(after.low));
    assert(frames_view(w.packet(mtu)) =~= p1 + p2 + p3 + p4);
    assert(waiting_frames(after) =~= r1 + r2 + r3 + r4);
    assert(waiting_frames(w) =~= (p1 + r1) + (p2 + r2) + (p3 + r3) + (p4 + r4));
    lemma_multiset_commutative(p1, p2);
    lemma_multiset_commutative(p1 + p2, p3);
    lemma_multiset_commutative(p1 + p2 + p3, p4);
    lemma_multiset_commutative(r1, r2);
    lemma_multiset_commutative(r1 + r2, r3);
    lemma_multiset_commutative(r1 + r2 + r3, r4);
    lemma_multiset_commutative(p1, r1);
    lemma_multiset_commutative(p2, r2);
    lemma_multiset_commutative(p3, r3);
    lemma_multiset_commutative(p4, r4);
    lemma_multiset_commutative(p1 + r1, p2 + r2);
    lemma_multiset_commutative((p1 + r1) + (p2 + r2), p3 + r3);
    lemma_multiset_commutative((p1 + r1) + (p2 + r2) + (p3 + r3), p4 + r4);
    assert(frames_view(w.packet(mtu)).to_multiset().add(waiting_frames(after).to_multiset())
        =~= waiting_frames(w).to_multiset());
}

/// A flush loses nothing and makes nothing up: what was sent and what still waits make up what
/// waited. Numbers and unconnected packets go out in the order in which they waited.
pub proof fn lemma_flush_conserves(start: FlushState, steps: Seq<FlushStep>)
    requires
        quiet_run(start, steps),
    ensures
        ({
            let ps = sent(steps);
            let end = state_after(start, steps);
            &&& acks_in(ps) + end.link.outgoing_ack == start.link.outgoing_ack
            &&& nacks_in(ps) + end.link.outgoing_nack == start.link.outgoing_nack
            &&& unconnected_in(ps) + waiting_unconnected(end.link.unconnected)
                == waiting_unconnected(start.link.unconnected)
            &&& frames_in(ps).to_multiset().add(waiting_frames(end.guard.buf@).to_multiset())
                == waiting_frames(start.guard.buf@).to_multiset()
        }),
    decreases steps.len(),
{
    let ps = sent(steps);
    let end = state_after(start, steps);
    if steps.len() == 0 {
        assert(acks_in(ps) + end.link.outgoing_ack =~= start.link.outgoing_ack);
        assert(nacks_in(ps) + end.link.outgoing_nack =~= start.link.outgoing_nack);
        assert(unconnected_in(ps) + waiting_unconnected(end.link.unconnected)
            =~= waiting_unconnected(start.link.unconnected));
        broadcast use vstd::seq_lib::group_to_multiset_ensures;
        assert(frames_in(ps).to_multiset().add(waiting_frames(end.guard.buf@).to_multiset())
            =~= waiting_frames(start.guard.buf@).to_multiset());
    } else {
        let step = steps.last();
        let mid = step.before;
        let qs = sent(steps.drop_last());
        lemma_flush_conserves(start, steps.drop_last());
        if let Some(p) = step.packet() {
            assert(qs.push(p).drop_last() =~= qs);
        }
        match mid.flush.phase {
            FlushPhase::Ack => {
                if step.packet() is Some {
                    lemma_numbers_taken(
                        acks_in(qs),
                        mid.link.outgoing_ack,
                        end.link.outgoing_ack,
                        start.link.outgoing_ack,
                    );
                    lemma_other_parts(qs, step.packet()->Some_0);
                }
            },
            FlushPhase::Nack => {
                if step.packet() is Some {
                    lemma_numbers_taken(
                        nacks_in(qs),
                        mid.link.outgoing_nack,
                        end.link.outgoing_nack,
                        start.link.outgoing_nack,
                    );
                    lemma_other_parts(qs, step.packet()->Some_0);
                }
            },
            FlushPhase::Unconnected => {
                if mid.link.unconnected.len() > 0 {
                    assert(mid.link.unconnected[0] is Unconnected);
                    lemma_other_parts(qs, step.packet()->Some_0);
                    assert(unconnected_in(ps) + waiting_unconnected(end.link.unconnected)
                        =~= unconnected_in(qs) + waiting_unconnected(mid.link.unconnected));
                }
            },
            FlushPhase::Frames => {
                let mtu = mid.guard.peer.mtu as int;
                let fs = frames_view(mid.guard.buf@.packet(mtu));
                lemma_frames_taken(mid.guard.buf@, mtu);
                lemma_multiset_commutative(frames_in(qs), fs);
                if step.packet() is Some {
                    lemma_other_parts(qs, step.packet()->Some_0);
                    assert(frames_in(ps) == frames_in(qs) + fs);
                } else {
                    assert(frames_in(qs) + fs =~= frames_in(qs));
                }
                assert(frames_in(ps).to_multiset().add(
                    waiting_frames(end.guard.buf@).to_multiset(),
                ) =~= frames_in(qs).to_multiset().add(
                    waiting_frames(mid.guard.buf@).to_multiset(),
                ));
            },
        }
    }
}

/// A packet of one kind adds nothing of another.
proof fn lemma_other_parts(qs: Seq<PacketView>, p: PacketView)
    ensures
        ({
            let ps = qs.push(p);
            &&& !(p matches PacketView::Connected(connected::PacketView::Ack(_))) ==> acks_in(ps)
                == acks_in(qs)
            &&& !(p matches PacketView::Connected(connected::PacketView::Nack(_))) ==> nacks_in(ps)
                == nacks_in(qs)
            &&& !(p is Unconnected) ==> unconnected_in(ps) == unconnected_in(qs)
            &&& !(p matches PacketView::Connected(connected::PacketView::FrameSet(_, _)))
                ==> frames_in(ps) == frames_in(qs)
        }),
{
    let ps = qs.push(p);
    assert(ps.drop_last() =~= qs);
    assert(acks_in(qs) + Seq::<u24>::empty() =~= acks_in(qs));
    assert(nacks_in(qs) + Seq::<u24>::empty() =~= nacks_in(qs));
    assert(frames_in(qs) + Seq::<Frame<Seq<u8>>>::empty() =~= frames_in(qs));
}

/// Where fewer than 2 to the power of 24 numbers wait, each of them is counted.
proof fn lemma_numbers_counted(start: FlushState, steps: Seq<FlushStep>)
    requires
        quiet_run(start, steps),
    ensures
        start.link.outgoing_ack.len() < U24_RANGE ==> acks_counted(sent(steps)) == acks_in(
            sent(steps),
        ).len(),
        start.link.outgoing_nack.len() < U24_RANGE ==> nacks_counted(sent(steps)) == nacks_in(
            sent(steps),
        ).len(),
    decreases steps.len(),
{
    if steps.len() > 0 {
        let step = steps.last();
        let link = step.before.link;
        let new_link = step.after.link;
        let qs = sent(steps.drop_last());
        lemma_numbers_counted(start, steps.drop_last());
        lemma_flush_conserves(start, steps.drop_last());
        if let Some(p) = step.packet() {
            assert(qs.push(p).drop_last() =~= qs);
            match step.before.flush.phase {
                FlushPhase::Ack => {
                    let part = taken(link.outgoing_ack, new_link.outgoing_ack);
                    assert forall|i: int| 0 <= i < part.len() implies (
                    #[trigger] part[i]).wf() by {
                        assert(link.outgoing_ack[i].wf());
                    }
                    lemma_runs_expand(part);
                    if start.link.outgoing_ack.len() < U24_RANGE {
                        lemma_runs_count(part);
                    }
                },
                FlushPhase::Nack => {
                    let part = taken(link.outgoing_nack, new_link.outgoing_nack);
                    assert forall|i: int| 0 <= i < part.len() implies (
                    #[trigger] part[i]).wf() by {
                        assert(link.outgoing_nack[i].wf());
                    }
                    lemma_runs_expand(part);
                    if start.link.outgoing_nack.len() < U24_RANGE {
                        lemma_runs_count(part);
                    }
                },
                _ => {},
            }
        }
    }
}

/// Once a flush is finished, all that waited of what is flushed was sent, and the strategy that it
/// leaves behind counts exactly that: every number that was acknowledged or asked for, where fewer
/// than 2 to the power of 24 waited, and every unconnected packet and frame set.
pub proof fn lemma_flush_complete(start: FlushState, steps: Seq<FlushStep>, marked: FlushStrategy)
    requires
        quiet_run(start, steps),
        start.flush.ack_cnt == 0,
        start.flush.nack_cnt == 0,
        start.flush.pack_cnt == 0,
        start.flush.strategy.flushed_all(
            state_after(start, steps).link,
            state_after(start, steps).guard.buf@,
        ),
        state_after(start, steps).flush.marks(marked),
    ensures
        ({
            let ps = sent(steps);
            let strategy = start.flush.strategy;
            &&& strategy.acks() matches Some(n) ==> {
                &&& acks_in(ps) == start.link.outgoing_ack
                &&& start.link.outgoing_ack.len() < U24_RANGE ==> marked.acks() == Some(
                    n + start.link.outgoing_ack.len(),
                )
            }
            &&& strategy.nacks() matches Some(n) ==> {
                &&& nacks_in(ps) == start.link.outgoing_nack
                &&& start.link.outgoing_nack.len() < U24_RANGE ==> marked.nacks() == Some(
                    n + start.link.outgoing_nack.len(),
                )
            }
            &&& strategy.packs() matches Some(n) ==> {
                &&& unconnected_in(ps) == waiting_unconnected(start.link.unconnected)
                &&& frames_in(ps).to_multiset() == waiting_frames(start.guard.buf@).to_multiset()
                &&& marked.packs() == Some(n + packs_counted(ps))
            }
        }),
{
    let ps = sent(steps);
    let end = state_after(start, steps);
    lemma_flush_conserves(start, steps);
    lemma_numbers_counted(start, steps);
    lemma_quiet_run(start, steps);
    lemma_flush_counts(start.flush, steps);
    if start.flush.strategy.acks() is Some {
        assert(acks_in(ps) + end.link.outgoing_ack =~= acks_in(ps));
    }
    if start.flush.strategy.nacks() is Some {
        assert(nacks_in(ps) + end.link.outgoing_nack =~= nacks_in(ps));
    }
    if start.flush.strategy.packs() is Some {
        assert(unconnected_in(ps) + waiting_unconnected(end.link.unconnected) =~= unconnected_in(
            ps,
        ));
        broadcast use vstd::seq_lib::group_to_multiset_ensures;
        assert(waiting_frames(end.guard.buf@) =~= Seq::empty());
        assert(frames_in(ps).to_multiset().add(waiting_frames(end.guard.buf@).to_multiset())
            =~= frames_in(ps).to_multiset());
    }
}

} // verus!
