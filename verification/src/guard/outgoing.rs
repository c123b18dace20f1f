//! The outgoing guard: acknowledgements are flushed, frames are packed, and what is not
//! acknowledged is sent again.
use bytes::{Bytes, BytesMut};
use vstd::prelude::*;

use crate::buf::Contents;
use crate::estimator::{RFC6298Impl, INITIAL_RTT};
use crate::guard::resend::{acked, asked_again, scanned, ResendEntry, ResendMap, Resending};
use crate::guard::send_buffer::{
    any_reliable, lemma_nothing_lost, lemma_packet_size, lemma_progress, total_size, PenaltyFrame,
    SendBuffer, Waiting,
};
use crate::handover::Handover;
use crate::link::{LinkView, TransferLink};
use crate::message::Priority;
use crate::opts::FlushStrategy;
use crate::packet::connected::ack::{
    has_room, lemma_ack_len, lemma_records_size_bound, lemma_runs_count_bound, lemma_runs_expand,
    lemma_runs_size_step, records_count, records_expand, records_size, runs,
};
use crate::packet::connected::frame::{lemma_frame_len, Frame, BODY_LIMIT};
use crate::packet::connected::frame_set::{
    frames_bytes, frames_view, frames_wf, lemma_frames_bytes_push, FrameSet,
};
use crate::packet::connected::packet as connected;
use crate::packet::datagram::PacketView;
use crate::peer::{Peer, Role};
use crate::sorted_queue::insert_sorted;
use crate::uint24::u24;
use crate::wire::lemma_le_roundtrip;

verus! {

/// What is due next in a round of a flush.
#[derive(Debug, Clone, Copy, PartialEq, Eq, Structural)]
pub enum FlushPhase {
    /// An ACK.
    Ack,
    /// A NACK.
    Nack,
    /// An unconnected packet.
    Unconnected,
    /// A frame set.
    Frames,
}

/// A flush: rounds of the phases above, until nothing waits of what is flushed.
#[derive(Debug, Clone, Copy)]
pub struct Flush {
    pub strategy: FlushStrategy,
    pub phase: FlushPhase,
    /// How many frame sets were acknowledged.
    pub ack_cnt: usize,
    /// How many frame sets were asked for.
    pub nack_cnt: usize,
    /// How many packets were sent.
    pub pack_cnt: usize,
}

impl Flush {
    /// The flush starts.
    pub fn new(strategy: FlushStrategy) -> (r: Flush)
        ensures
            r == (Flush {
                strategy,
                phase: FlushPhase::Ack,
                ack_cnt: 0,
                nack_cnt: 0,
                pack_cnt: 0,
            }),
    {
        Flush { strategy, phase: FlushPhase::Ack, ack_cnt: 0, nack_cnt: 0, pack_cnt: 0 }
    }

    /// Whether the flush is done: a round is over and nothing waits of what is flushed.
    pub fn finished(&self, link: &TransferLink, buf: &SendBuffer) -> (r: bool)
        ensures
            r == (self.phase is Ack && self.strategy.flushed_all(link@, buf@)),
    {
        match self.phase {
            FlushPhase::Ack => self.strategy.check_flushed(link, buf),
            _ => false,
        }
    }

    /// `r` is the strategy with what was flushed added to it.
    pub open spec fn marks(self, r: FlushStrategy) -> bool {
        &&& r.acks() == (match self.strategy.acks() {
            Some(n) => Some(n + self.ack_cnt),
            None => None,
        })
        &&& r.nacks() == (match self.strategy.nacks() {
            Some(n) => Some(n + self.nack_cnt),
            None => None,
        })
        &&& r.packs() == (match self.strategy.packs() {
            Some(n) => Some(n + self.pack_cnt),
            None => None,
        })
    }

    /// The strategy with what was flushed added to it.
    pub fn marked(&self) -> (r: FlushStrategy)
        requires
            self.strategy.wf(),
            self.strategy.acks() matches Some(n) ==> n + self.ack_cnt <= isize::MAX,
            self.strategy.nacks() matches Some(n) ==> n + self.nack_cnt <= isize::MAX,
            self.strategy.packs() matches Some(n) ==> n + self.pack_cnt <= isize::MAX,
        ensures
            r.wf(),
            self.marks(r),
    {
        let mut strategy = self.strategy;
        strategy.mark_flushed_ack(self.ack_cnt);
        strategy.mark_flushed_nack(self.nack_cnt);
        strategy.mark_flushed_pack(self.pack_cnt);
        strategy
    }
}

/// Numbers are taken from the front of `s` as long as they fit in one packet; `rest` is left.
pub open spec fn cut(s: Seq<u24>, rest: Seq<u24>, mtu: u16) -> bool {
    if s.len() == 0 {
        rest == s
    } else {
        let n = s.len() - rest.len();
        &&& 1 <= n <= s.len()
        &&& rest == s.skip(n)
        &&& n == s.len() || !has_room(s, n, mtu)
        &&& forall|k: int| 1 <= k < n ==> has_room(s, k, mtu)
    }
}

/// The numbers that were taken from the front of `s`.
pub open spec fn taken(s: Seq<u24>, rest: Seq<u24>) -> Seq<u24> {
    s.take(s.len() - rest.len())
}

/// What is left of the frame sets, and the estimate, once the ACKs were processed.
pub open spec fn acks_processed(
    m: Map<u32, ResendEntry>,
    e: RFC6298Impl,
    acks: Seq<Handover>,
) -> (Map<u32, ResendEntry>, RFC6298Impl)
    decreases acks.len(),
{
    if acks.len() == 0 {
        (m, e)
    } else {
        let (m, e) = acks_processed(m, e, acks.drop_last());
        match acks.last() {
            Handover::Ack { records, received_at } => acked(
                m,
                e,
                records_expand(records.records@),
                received_at,
            ),
            _ => (m, e),
        }
    }
}

/// What is left of the frame sets, and what waits to be sent again, once the NACKs were
/// processed.
pub open spec fn nacks_processed(
    m: Map<u32, ResendEntry>,
    queue: Seq<PenaltyFrame>,
    nacks: Seq<Handover>,
) -> (Map<u32, ResendEntry>, Seq<PenaltyFrame>)
    decreases nacks.len(),
{
    if nacks.len() == 0 {
        (m, queue)
    } else {
        let (m, queue) = nacks_processed(m, queue, nacks.drop_last());
        match nacks.last() {
            Handover::Nack(records) => asked_again(m, queue, records_expand(records.records@)),
            _ => (m, queue),
        }
    }
}

/// Equips a connection with an ACK/NACK flusher and a packet buffer, and provides resending
/// policies and flush strategies.
pub struct OutgoingGuard {
    pub seq_num_write_index: u24,
    pub peer: Peer,
    pub role: Role,
    pub buf: SendBuffer,
    pub resend: ResendMap,
}

/// What to do when a connection is to be closed and everything was flushed.
#[derive(Debug, Clone, Copy, PartialEq, Eq, Structural)]
pub enum CloseAction {
    /// All frames are received by the peer.
    Done,
    /// Wait until this time for an acknowledgement, then flush again.
    Wait(u128),
    /// Flush again.
    Again,
}

/// What to do at `now` when the connection is to be closed and `m` is kept.
pub open spec fn closing(m: Map<u32, ResendEntry>, now: u64, r: CloseAction) -> bool {
    match r {
        CloseAction::Done => m.dom() == Set::<u32>::empty(),
        CloseAction::Wait(t) => {
            &&& now < t
            &&& exists|n: u32| #[trigger] m.contains_key(n) && m[n].expired_at == t
            &&& forall|n: u32| #[trigger] m.contains_key(n) ==> t <= m[n].expired_at
        },
        CloseAction::Again => exists|n: u32| #[trigger] m.contains_key(n) && m[n].expired_at <= now,
    }
}

impl OutgoingGuard {
    /// The numbers fit in 24 bits, all frames can be written, and an acknowledgement fits in a
    /// packet.
    pub open spec fn wf(self) -> bool {
        &&& self.seq_num_write_index.wf()
        &&& self.buf@.wf()
        &&& self.resend.wf()
        &&& self.peer.mtu >= 7
    }

    /// A guard that sends to `peer` and lets about `cap` frames wait.
    pub fn new(cap: usize, peer: Peer, role: Role, now: u64) -> (r: OutgoingGuard)
        requires
            cap > 0,
            peer.mtu >= 7,
        ensures
            r.wf(),
            r.seq_num_write_index == u24(0),
            r.peer == peer,
            r.role == role,
            r.buf.cap == cap,
            r.buf@.count() == 0,
            r.resend.map@ == Map::<u32, ResendEntry>::empty(),
            r.resend.last_record_expired_at == now,
            r.resend.estimator == (RFC6298Impl { latest: INITIAL_RTT, smoothed: None, var: 0 }),
    {
        OutgoingGuard {
            seq_num_write_index: u24(0),
            peer,
            role,
            buf: SendBuffer::new(cap),
            resend: ResendMap::new(now),
        }
    }

    /// Processes what arrived on the link: what was acknowledged is forgotten, what was asked
    /// for, and what is overdue at `now`, waits to be sent again.
    pub fn prepare(&mut self, link: &mut TransferLink, now: u64)
        requires
            old(self).wf(),
            old(link).wf(),
        ensures
            final(self).wf(),
            final(link).wf(),
            final(link)@ == (LinkView {
                incoming_ack: Seq::empty(),
                incoming_nack: Seq::empty(),
                ..old(link)@
            }),
            prepared(
                *old(self),
                *final(self),
                old(link)@.incoming_ack,
                old(link)@.incoming_nack,
                now,
            ),
    {
        let ghost acks = link@.incoming_ack;
        let ghost nacks = link@.incoming_nack;
        let ghost m0 = self.resend.map@;
        let ghost e0 = self.resend.estimator;
        let ghost q0 = self.buf@.resend;
        let ghost mut n: int = 0;
        let mut more = true;
        assert(acks.skip(0) =~= acks);
        assert(acks.take(0) =~= Seq::empty());
        while more
            invariant
                self.wf(),
                link.wf(),
                0 <= n <= acks.len(),
                more || n == acks.len(),
                link@ == (LinkView { incoming_ack: acks.skip(n), ..old(link)@ }),
                self.seq_num_write_index == old(self).seq_num_write_index,
                self.peer == old(self).peer,
                self.role == old(self).role,
                self.buf == old(self).buf,
                self.resend.last_record_expired_at == old(self).resend.last_record_expired_at,
                (self.resend.map@, self.resend.estimator) == acks_processed(
                    m0,
                    e0,
                    acks.take(n),
                ),
            decreases acks.len() - n + if more {
                1int
            } else {
                0
            },
        {
            match link.process_ack() {
                Some((ack, received_at)) => {
                    proof {
                        assert(acks.skip(n)[0] == acks[n]);
                        assert(acks.skip(n).skip(1) =~= acks.skip(n + 1));
                        assert(acks.take(n + 1).drop_last() =~= acks.take(n));
                        assert(acks.take(n + 1).last() == acks[n]);
                        n = n + 1;
                    }
                    self.resend.on_ack(ack, received_at);
                },
                None => {
                    more = false;
                },
            }
        }
        let ghost m1 = self.resend.map@;
        assert(acks.take(n) =~= acks);
        assert(acks.skip(n) =~= Seq::empty());
        let ghost mut k: int = 0;
        let mut more = true;
        assert(nacks.skip(0) =~= nacks);
        assert(nacks.take(0) =~= Seq::empty());
        while more
            invariant
                self.wf(),
                link.wf(),
                0 <= k <= nacks.len(),
                more || k == nacks.len(),
                link@ == (LinkView {
                    incoming_ack: Seq::empty(),
                    incoming_nack: nacks.skip(k),
                    ..old(link)@
                }),
                self.seq_num_write_index == old(self).seq_num_write_index,
                self.peer == old(self).peer,
                self.role == old(self).role,
                self.buf.cap == old(self).buf.cap,
                self.buf@ == (Waiting { resend: self.buf@.resend, ..old(self).buf@ }),
                self.resend.last_record_expired_at == old(self).resend.last_record_expired_at,
                (m1, self.resend.estimator) == acks_processed(m0, e0, acks),
                (self.resend.map@, self.buf@.resend) == nacks_processed(m1, q0, nacks.take(k)),
            decreases nacks.len() - k + if more {
                1int
            } else {
                0
            },
        {
            match link.process_nack() {
                Some(nack) => {
                    proof {
                        assert(nacks.skip(k)[0] == nacks[k]);
                        assert(nacks.skip(k).skip(1) =~= nacks.skip(k + 1));
                        assert(nacks.take(k + 1).drop_last() =~= nacks.take(k));
                        assert(nacks.take(k + 1).last() == nacks[k]);
                        k = k + 1;
                    }
                    self.resend.on_nack_into(nack, &mut self.buf);
                },
                None => {
                    more = false;
                },
            }
        }
        assert(nacks.take(k) =~= nacks);
        assert(nacks.skip(k) =~= Seq::empty());
        self.resend.process_stales(&mut self.buf, now);
    }

    /// Appends an ACK to `wr`, where one is due and acks are flushed.
    fn flush_ack(&mut self, link: &mut TransferLink, flush: &mut Flush, wr: &mut BytesMut)
        requires
            old(self).wf(),
            old(link).wf(),
            old(flush).ack_cnt + old(link)@.outgoing_ack.len() <= usize::MAX,
        ensures
            *final(self) == *old(self),
            final(link).wf(),
            ack_flushed(*old(flush), *final(flush), old(link)@, final(link)@, old(self).peer.mtu),
            final(wr).seq() == old(wr).seq() + packet_bytes(
                ack_packet(*old(flush), old(link)@, final(link)@),
            ),
    {
        let ghost s = link@.outgoing_ack;
        proof {
            link.lemma_view_wf();
        }
        if flush.strategy.flush_ack() {
            if let Some(ack) = link.process_outgoing_ack(self.peer.mtu) {
                proof {
                    let part = taken(s, link@.outgoing_ack);
                    assert forall|i: int| 0 <= i < part.len() implies (#[trigger] part[i]).wf() by {
                        assert(s[i].wf());
                    }
                    lemma_runs_count_bound(part);
                    lemma_records_size_bound(ack.records@);
                }
                flush.ack_cnt = flush.ack_cnt + ack.total_cnt();
                let packet: connected::Packet<Vec<Frame<Bytes>>> = connected::Packet::Ack(ack);
                packet.write(wr);
            }
        }
        assert(wr.seq() =~= old(wr).seq() + packet_bytes(
            ack_packet(*old(flush), old(link)@, link@),
        ));
        flush.phase = FlushPhase::Nack;
    }

    /// Appends a NACK to `wr`, where one is due and nacks are flushed.
    fn flush_nack(&mut self, link: &mut TransferLink, flush: &mut Flush, wr: &mut BytesMut)
        requires
            old(self).wf(),
            old(link).wf(),
            old(flush).nack_cnt + old(link)@.outgoing_nack.len() <= usize::MAX,
        ensures
            *final(self) == *old(self),
            final(link).wf(),
            nack_flushed(*old(flush), *final(flush), old(link)@, final(link)@, old(self).peer.mtu),
            final(wr).seq() == old(wr).seq() + packet_bytes(
                nack_packet(*old(flush), old(link)@, final(link)@),
            ),
    {
        let ghost s = link@.outgoing_nack;
        proof {
            link.lemma_view_wf();
        }
        if flush.strategy.flush_nack() {
            if let Some(nack) = link.process_outgoing_nack(self.peer.mtu) {
                proof {
                    let part = taken(s, link@.outgoing_nack);
                    assert forall|i: int| 0 <= i < part.len() implies (#[trigger] part[i]).wf() by {
                        assert(s[i].wf());
                    }
                    lemma_runs_count_bound(part);
                    lemma_records_size_bound(nack.records@);
                }
                flush.nack_cnt = flush.nack_cnt + nack.total_cnt();
                let packet: connected::Packet<Vec<Frame<Bytes>>> = connected::Packet::Nack(nack);
                packet.write(wr);
            }
        }
        assert(wr.seq() =~= old(wr).seq() + packet_bytes(
            nack_packet(*old(flush), old(link)@, link@),
        ));
        flush.phase = if flush.strategy.flush_pack() {
            FlushPhase::Unconnected
        } else {
            FlushPhase::Ack
        };
    }

    /// Appends an unconnected packet to `wr`, where one is due.
    fn flush_unconnected(&mut self, link: &mut TransferLink, flush: &mut Flush, wr: &mut BytesMut)
        requires
            old(self).wf(),
            old(link).wf(),
            old(flush).pack_cnt < usize::MAX,
        ensures
            *final(self) == *old(self),
            final(link).wf(),
            unconnected_flushed(*old(flush), *final(flush), old(link)@, final(link)@),
            final(wr).seq() == old(wr).seq() + packet_bytes(unconnected_packet(old(link)@)),
    {
        // only one packet each time
        if let Some(packet) = link.process_unconnected() {
            packet.write(wr);
            flush.pack_cnt = flush.pack_cnt + 1;
        }
        assert(wr.seq() =~= old(wr).seq() + packet_bytes(unconnected_packet(old(link)@)));
        flush.phase = FlushPhase::Frames;
    }

    /// Appends a frame set to `wr`, where frames wait. It is kept where some frame must arrive.
    fn flush_frames(&mut self, flush: &mut Flush, now: u64, wr: &mut BytesMut)
        requires
            old(self).wf(),
            old(flush).pack_cnt < usize::MAX,
        ensures
            final(self).wf(),
            frames_flushed(*old(flush), *final(flush), *old(self), *final(self), now),
            final(wr).seq() == old(wr).seq() + packet_bytes(frames_packet(*old(self))),
    {
        let ghost start = *self;
        let ghost mtu = self.peer.mtu as int;
        let mut frames: Vec<Frame<Bytes>> = Vec::new();
        let mut reliable = false;
        let penalty: u8 = self.buf.pop(self.peer.mtu as usize, &mut reliable, &mut frames);
        assert(frames@ =~= start.buf@.packet(mtu));
        if frames.len() > 0 {
            let seq_num = self.seq_num_write_index;
            proof {
                assert forall|i: int| 0 <= i < frames_view(frames@).len() implies (
                #[trigger] frames_view(frames@)[i]).body.len() < BODY_LIMIT by {
                    assert(frames@[i]@.body.len() < BODY_LIMIT);
                }
            }
            let packet: connected::Packet<&[Frame<Bytes>]> = connected::Packet::FrameSet(
                FrameSet { seq_num, set: frames.as_slice() },
            );
            packet.write_ref(wr);
            if reliable {
                // keep for resending
                self.resend.record(seq_num, penalty, frames, now);
            }
            self.seq_num_write_index = seq_num.next();
            flush.pack_cnt = flush.pack_cnt + 1;
        }
        assert(wr.seq() =~= old(wr).seq() + packet_bytes(frames_packet(start)));
        flush.phase = FlushPhase::Ack;
    }

    /// Takes one step of a flush at `now`: appends the packet that is due to `wr`, or nothing
    /// where none is.
    pub fn flush_step(
        &mut self,
        link: &mut TransferLink,
        flush: &mut Flush,
        now: u64,
        wr: &mut BytesMut,
    )
        requires
            old(self).wf(),
            old(link).wf(),
            old(flush).ack_cnt + old(link)@.outgoing_ack.len() <= usize::MAX,
            old(flush).nack_cnt + old(link)@.outgoing_nack.len() <= usize::MAX,
            old(flush).pack_cnt < usize::MAX,
        ensures
            final(self).wf(),
            final(link).wf(),
            stepped(
                *old(flush),
                *final(flush),
                old(link)@,
                final(link)@,
                *old(self),
                *final(self),
                now,
            ),
            final(wr).seq() == old(wr).seq() + packet_bytes(
                step_packet(*old(flush), old(link)@, final(link)@, *old(self)),
            ),
    {
        match flush.phase {
            FlushPhase::Ack => self.flush_ack(link, flush, wr),
            FlushPhase::Nack => self.flush_nack(link, flush, wr),
            FlushPhase::Unconnected => self.flush_unconnected(link, flush, wr),
            FlushPhase::Frames => self.flush_frames(flush, now, wr),
        }
    }

    /// Takes in a frame to send.
    pub fn send(&mut self, priority: Priority, frame: Frame<Bytes>)
        requires
            old(self).wf(),
            frame@.body.len() < BODY_LIMIT,
        ensures
            final(self).wf(),
            taken_in(*old(self), *final(self), priority, frame),
    {
        self.buf.send(priority, frame);
    }

    /// Whether another frame may be sent: fewer frames wait than should at most.
    pub fn ready(&self) -> (r: bool)
        ensures
            r == (self.buf@.count() < self.buf.cap),
    {
        !self.buf.is_full()
    }

    /// What to do at `now` when the connection is to be closed and everything was flushed. It
    /// insures that all frames are received by the peer, and may resend infinitely.
    pub fn close_action(&self, now: u64) -> (r: CloseAction)
        ensures
            closing(self.resend.map@, now, r),
            match r {
                CloseAction::Done => self.resend.map@.dom() == Set::<u32>::empty(),
                CloseAction::Wait(t) => {
                    &&& now < t
                    &&& exists|n: u32| #[trigger]
                        self.resend.map@.contains_key(n) && self.resend.map@[n].expired_at == t
                    &&& forall|n: u32| #[trigger]
                        self.resend.map@.contains_key(n) ==> t <= self.resend.map@[n].expired_at
                },
                CloseAction::Again => exists|n: u32| #[trigger]
                    self.resend.map@.contains_key(n) && self.resend.map@[n].expired_at <= now,
            },
    {
        if self.resend.is_empty() {
            return CloseAction::Done;
        }
        match self.resend.poll_wait(now) {
            Some((seq_num, expired_at)) => {
                assert(self.resend.map@.contains_key(seq_num.0));
                CloseAction::Wait(expired_at)
            },
            None => CloseAction::Again,
        }
    }
}

/// What arrived was processed at `now`: what was acknowledged is forgotten, what was asked for, and
/// what is overdue, waits to be sent again.
pub open spec fn prepared(
    guard: OutgoingGuard,
    new_guard: OutgoingGuard,
    acks: Seq<Handover>,
    nacks: Seq<Handover>,
    now: u64,
) -> bool {
    let (m, e) = acks_processed(guard.resend.map@, guard.resend.estimator, acks);
    let (m, queue) = nacks_processed(m, guard.buf@.resend, nacks);
    let before = Resending {
        map: m,
        queue,
        estimator: e,
        next_scan: guard.resend.last_record_expired_at,
    };
    &&& new_guard.seq_num_write_index == guard.seq_num_write_index
    &&& new_guard.peer == guard.peer
    &&& new_guard.role == guard.role
    &&& new_guard.buf.cap == guard.buf.cap
    &&& new_guard.buf@ == (Waiting { resend: new_guard.buf@.resend, ..guard.buf@ })
    &&& scanned(before, new_guard.resend.resending(new_guard.buf@.resend), now)
}

/// A frame was taken in to be sent.
pub open spec fn taken_in(
    guard: OutgoingGuard,
    new_guard: OutgoingGuard,
    priority: Priority,
    frame: Frame<Bytes>,
) -> bool {
    &&& new_guard.seq_num_write_index == guard.seq_num_write_index
    &&& new_guard.peer == guard.peer
    &&& new_guard.role == guard.role
    &&& new_guard.resend == guard.resend
    &&& new_guard.buf.cap == guard.buf.cap
    &&& new_guard.buf@ == (match priority {
        Priority::High(penalty) => Waiting {
            high: insert_sorted(guard.buf@.high, PenaltyFrame { penalty, frame }),
            ..guard.buf@
        },
        Priority::Medium => Waiting { medium: guard.buf@.medium.push(frame), ..guard.buf@ },
        Priority::Low(penalty) => Waiting {
            low: insert_sorted(guard.buf@.low, PenaltyFrame { penalty, frame }),
            ..guard.buf@
        },
    })
}

/// An ACK was flushed, where one was due and acks are flushed: it covers as many numbers as fit
/// in one packet. A NACK is next.
pub open spec fn ack_flushed(
    before: Flush,
    after: Flush,
    link: LinkView,
    new_link: LinkView,
    mtu: u16,
) -> bool {
    let due = before.strategy.acks() is Some;
    &&& new_link == (LinkView { outgoing_ack: new_link.outgoing_ack, ..link })
    &&& if due {
        cut(link.outgoing_ack, new_link.outgoing_ack, mtu)
    } else {
        new_link.outgoing_ack == link.outgoing_ack
    }
    &&& after == (Flush {
        phase: FlushPhase::Nack,
        ack_cnt: (before.ack_cnt + if due {
            records_count(runs(taken(link.outgoing_ack, new_link.outgoing_ack)))
        } else {
            0
        }) as usize,
        ..before
    })
}

/// The ACK that was flushed.
pub open spec fn ack_packet(flush: Flush, link: LinkView, new_link: LinkView) -> Option<
    PacketView,
> {
    if flush.strategy.acks() is Some && link.outgoing_ack.len() > 0 {
        let records = runs(taken(link.outgoing_ack, new_link.outgoing_ack));
        Some(PacketView::Connected(connected::PacketView::Ack(records)))
    } else {
        None
    }
}

/// A NACK was flushed, where one was due and nacks are flushed: it covers as many numbers as fit
/// in one packet. An unconnected packet is next where packets are flushed; otherwise the round is
/// over.
pub open spec fn nack_flushed(
    before: Flush,
    after: Flush,
    link: LinkView,
    new_link: LinkView,
    mtu: u16,
) -> bool {
    let due = before.strategy.nacks() is Some;
    &&& new_link == (LinkView { outgoing_nack: new_link.outgoing_nack, ..link })
    &&& if due {
        cut(link.outgoing_nack, new_link.outgoing_nack, mtu)
    } else {
        new_link.outgoing_nack == link.outgoing_nack
    }
    &&& after == (Flush {
        phase: if before.strategy.packs() is Some {
            FlushPhase::Unconnected
        } else {
            FlushPhase::Ack
        },
        nack_cnt: (before.nack_cnt + if due {
            records_count(runs(taken(link.outgoing_nack, new_link.outgoing_nack)))
        } else {
            0
        }) as usize,
        ..before
    })
}

/// The NACK that was flushed.
pub open spec fn nack_packet(flush: Flush, link: LinkView, new_link: LinkView) -> Option<
    PacketView,
> {
    if flush.strategy.nacks() is Some && link.outgoing_nack.len() > 0 {
        let records = runs(taken(link.outgoing_nack, new_link.outgoing_nack));
        Some(PacketView::Connected(connected::PacketView::Nack(records)))
    } else {
        None
    }
}

/// One unconnected packet was flushed, where one was due. A frame set is next.
pub open spec fn unconnected_flushed(
    before: Flush,
    after: Flush,
    link: LinkView,
    new_link: LinkView,
) -> bool {
    let due = link.unconnected.len() > 0;
    &&& new_link == (if due {
        LinkView { unconnected: link.unconnected.skip(1), ..link }
    } else {
        link
    })
    &&& after == (Flush {
        phase: FlushPhase::Frames,
        pack_cnt: (before.pack_cnt + if due {
            1int
        } else {
            0
        }) as usize,
        ..before
    })
}

/// The unconnected packet that was flushed.
pub open spec fn unconnected_packet(link: LinkView) -> Option<PacketView> {
    if link.unconnected.len() > 0 {
        match link.unconnected[0] {
            Handover::Unconnected(packet) => Some(PacketView::Unconnected(packet@)),
            _ => None,
        }
    } else {
        None
    }
}

/// A frame set was flushed, where frames waited. It is kept where some frame of it must arrive.
/// The round is over.
pub open spec fn frames_flushed(
    before: Flush,
    after: Flush,
    guard: OutgoingGuard,
    new_guard: OutgoingGuard,
    now: u64,
) -> bool {
    let mtu = guard.peer.mtu as int;
    let frames = guard.buf@.packet(mtu);
    let sent = frames.len() > 0;
    &&& after == (Flush {
        phase: FlushPhase::Ack,
        pack_cnt: (before.pack_cnt + if sent {
            1int
        } else {
            0
        }) as usize,
        ..before
    })
    &&& new_guard.peer == guard.peer
    &&& new_guard.role == guard.role
    &&& new_guard.buf.cap == guard.buf.cap
    &&& new_guard.buf@ == guard.buf@.after_packet(mtu)
    &&& new_guard.seq_num_write_index == (if sent {
        guard.seq_num_write_index.succ()
    } else {
        guard.seq_num_write_index
    })
    &&& new_guard.resend.estimator == guard.resend.estimator
    &&& new_guard.resend.last_record_expired_at == guard.resend.last_record_expired_at
    &&& if any_reliable(frames) {
        kept(guard, new_guard, frames, now)
    } else {
        new_guard.resend.map@ == guard.resend.map@
    }
}

/// The frame set is kept under its number, to be sent again when its time has come.
pub open spec fn kept(
    guard: OutgoingGuard,
    new_guard: OutgoingGuard,
    frames: Seq<Frame<Bytes>>,
    now: u64,
) -> bool {
    let n = guard.seq_num_write_index.0;
    let penalty = guard.buf@.packet_penalty(guard.peer.mtu as int, 0);
    let entry = new_guard.resend.map@[n];
    &&& new_guard.resend.map@ == guard.resend.map@.insert(n, entry)
    &&& entry.frames@ == frames
    &&& entry.penalty == penalty
    &&& entry.send_at == now
    &&& entry.expired_at == now + guard.resend.estimator.spec_rto() * (1 + penalty)
}

/// The frame set that was flushed.
pub open spec fn frames_packet(guard: OutgoingGuard) -> Option<PacketView> {
    let frames = guard.buf@.packet(guard.peer.mtu as int);
    if frames.len() > 0 {
        Some(
            PacketView::Connected(
                connected::PacketView::FrameSet(guard.seq_num_write_index, frames_view(frames)),
            ),
        )
    } else {
        None
    }
}

/// One step of a flush at `now`: what is due in the phase was flushed.
pub open spec fn stepped(
    before: Flush,
    after: Flush,
    link: LinkView,
    new_link: LinkView,
    guard: OutgoingGuard,
    new_guard: OutgoingGuard,
    now: u64,
) -> bool {
    match before.phase {
        FlushPhase::Ack => new_guard == guard && ack_flushed(
            before,
            after,
            link,
            new_link,
            guard.peer.mtu,
        ),
        FlushPhase::Nack => new_guard == guard && nack_flushed(
            before,
            after,
            link,
            new_link,
            guard.peer.mtu,
        ),
        FlushPhase::Unconnected => new_guard == guard && unconnected_flushed(
            before,
            after,
            link,
            new_link,
        ),
        FlushPhase::Frames => new_link == link && frames_flushed(
            before,
            after,
            guard,
            new_guard,
            now,
        ),
    }
}

/// The packet of a step of a flush, where there is one.
pub open spec fn step_packet(
    before: Flush,
    link: LinkView,
    new_link: LinkView,
    guard: OutgoingGuard,
) -> Option<PacketView> {
    match before.phase {
        FlushPhase::Ack => ack_packet(before, link, new_link),
        FlushPhase::Nack => nack_packet(before, link, new_link),
        FlushPhase::Unconnected => unconnected_packet(link),
        FlushPhase::Frames => frames_packet(guard),
    }
}

/// The packet as it is written, where there is one.
pub open spec fn packet_bytes(p: Option<PacketView>) -> Seq<u8> {
    match p {
        Some(p) => p.bytes(),
        None => Seq::empty(),
    }
}

/// How much waits of what is flushed.
pub open spec fn outstanding(strategy: FlushStrategy, link: LinkView, buf: Waiting) -> int {
    let acks = if strategy.acks() is Some {
        link.outgoing_ack.len() as int
    } else {
        0
    };
    let nacks = if strategy.nacks() is Some {
        link.outgoing_nack.len() as int
    } else {
        0
    };
    let packs = if strategy.packs() is Some {
        link.unconnected.len() + buf.count()
    } else {
        0
    };
    acks + nacks + packs
}

/// A flush comes to an end: where something waits of what is flushed, and each frame fits in a
/// packet of its own, a round leaves less of it. `l0` to `l3` is the link before and after the
/// steps of the round, `f0` to `f4` the flush.
pub proof fn lemma_round_shrinks(
    f0: Flush,
    f1: Flush,
    f2: Flush,
    f3: Flush,
    f4: Flush,
    l0: LinkView,
    l1: LinkView,
    l2: LinkView,
    l3: LinkView,
    guard: OutgoingGuard,
    new_guard: OutgoingGuard,
    now: u64,
)
    requires
        guard.wf(),
        guard.buf@.fits(guard.peer.mtu as int),
        !f0.strategy.flushed_all(l0, guard.buf@),
        ack_flushed(f0, f1, l0, l1, guard.peer.mtu),
        nack_flushed(f1, f2, l1, l2, guard.peer.mtu),
        f0.strategy.packs() is Some ==> unconnected_flushed(f2, f3, l2, l3) && frames_flushed(
            f3,
            f4,
            guard,
            new_guard,
            now,
        ),
        f0.strategy.packs() is None ==> l3 == l2 && new_guard == guard,
    ensures
        outstanding(f0.strategy, l3, new_guard.buf@) < outstanding(f0.strategy, l0, guard.buf@),
{
    let mtu = guard.peer.mtu as int;
    if f0.strategy.packs() is Some {
        if guard.buf@.count() > 0 {
            lemma_progress(guard.buf@, mtu);
        } else {
            lemma_nothing_lost(guard.buf@, mtu);
            let (a, b, c, d) = guard.buf@.picked(mtu);
            assert(guard.buf@.after_packet(mtu).resend.len() <= guard.buf@.resend.len());
            assert(guard.buf@.after_packet(mtu).high.len() <= guard.buf@.high.len());
            assert(guard.buf@.after_packet(mtu).medium.len() <= guard.buf@.medium.len());
            assert(guard.buf@.after_packet(mtu).low.len() <= guard.buf@.low.len());
        }
    }
}

/// A frame that must arrive is never let go of: whatever frame set it is sent in is kept under
/// its number until it is acknowledged, asked for or overdue, and what was kept under other
/// numbers still is.
pub proof fn lemma_reliable_kept(
    before: Flush,
    after: Flush,
    guard: OutgoingGuard,
    new_guard: OutgoingGuard,
    now: u64,
    i: int,
)
    requires
        frames_flushed(before, after, guard, new_guard, now),
        0 <= i < guard.buf@.packet(guard.peer.mtu as int).len(),
        guard.buf@.packet(guard.peer.mtu as int)[i].flags.reliability.reliable(),
    ensures
        ({
            let n = guard.seq_num_write_index.0;
            let frames = guard.buf@.packet(guard.peer.mtu as int);
            &&& new_guard.resend.map@.contains_key(n)
            &&& new_guard.resend.map@[n].frames@ == frames
            &&& new_guard.resend.map@[n].frames@[i] == frames[i]
            &&& forall|k: u32|
                k != n && #[trigger] guard.resend.map@.contains_key(k)
                    ==> new_guard.resend.map@.contains_key(k) && new_guard.resend.map@[k]
                    == guard.resend.map@[k]
        }),
{
    assert(any_reliable(guard.buf@.packet(guard.peer.mtu as int)));
}

/// An ACK or a NACK that is flushed fits in a packet.
pub proof fn lemma_ack_fits(s: Seq<u24>, rest: Seq<u24>, mtu: u16)
    requires
        s.len() > 0,
        mtu >= 7,
        cut(s, rest, mtu),
    ensures
        connected::PacketView::Ack(runs(taken(s, rest))).bytes().len() <= mtu,
        connected::PacketView::Nack(runs(taken(s, rest))).bytes().len() <= mtu,
{
    let part = taken(s, rest);
    let n = part.len() as int;
    lemma_ack_len(runs(part));
    lemma_runs_size_step(part);
    if n > 1 {
        assert(has_room(s, n - 1, mtu));
        assert(part.drop_last() =~= s.take(n - 1));
    } else {
        assert(part.drop_last() =~= Seq::empty());
        assert(runs(part.drop_last()) =~= Seq::empty());
        assert(records_size(runs(part.drop_last())) == 0);
    }
}

/// An ACK says what arrived: the numbers that it covers, in order, are those that were due first.
pub proof fn lemma_ack_faithful(s: Seq<u24>, rest: Seq<u24>, mtu: u16)
    requires
        cut(s, rest, mtu),
    ensures
        records_expand(runs(taken(s, rest))) + rest == s,
{
    lemma_runs_expand(taken(s, rest));
    assert(taken(s, rest) + rest =~= s);
}

proof fn lemma_frames_len(fs: Seq<Frame<Bytes>>)
    requires
        frames_wf(frames_view(fs)),
    ensures
        frames_bytes(frames_view(fs)).len() == total_size(fs),
    decreases fs.len(),
{
    if fs.len() > 0 {
        let init = fs.drop_last();
        let view = frames_view(fs);
        assert(frames_view(init) =~= view.drop_last());
        assert forall|i: int| 0 <= i < frames_view(init).len() implies (#[trigger] frames_view(
            init,
        )[i]).wf() by {
            assert(view[i].wf());
        }
        lemma_frames_len(init);
        assert(view[fs.len() - 1].wf());
        lemma_frame_len(view.last());
        lemma_frames_bytes_push(view.drop_last(), view.last());
        assert(view.drop_last().push(view.last()) =~= view);
    }
}

/// A frame set that is flushed fits in a packet.
pub proof fn lemma_frame_set_fits(guard: OutgoingGuard)
    requires
        guard.wf(),
        frames_wf(frames_view(guard.buf@.packet(guard.peer.mtu as int))),
    ensures
        packet_bytes(frames_packet(guard)).len() <= guard.peer.mtu,
{
    let mtu = guard.peer.mtu as int;
    let frames = guard.buf@.packet(mtu);
    lemma_frames_len(frames);
    lemma_le_roundtrip(guard.seq_num_write_index.0 as nat, 3);
    lemma_packet_size(guard.buf@, mtu);
}

/// A connection is closed just where no frame set is kept any more. Where one is overdue one
/// flushes again at once; otherwise one waits, until the first of them is overdue and no longer.
pub proof fn lemma_closing(m: Map<u32, ResendEntry>, now: u64, r: CloseAction)
    requires
        closing(m, now, r),
    ensures
        r is Done <==> forall|n: u32| !(#[trigger] m.contains_key(n)),
        r is Again <==> exists|n: u32| #[trigger] m.contains_key(n) && m[n].expired_at <= now,
        r matches CloseAction::Wait(t) ==> t > now && (forall|n: u32| #[trigger]
            m.contains_key(n) ==> m[n].expired_at >= t) && (exists|n: u32| #[trigger]
            m.contains_key(n) && m[n].expired_at <= t),
{
    match r {
        CloseAction::Done => {
            assert forall|n: u32| !(#[trigger] m.contains_key(n)) by {
                assert(!m.dom().contains(n));
            }
        },
        CloseAction::Wait(t) => {
            let n = choose|n: u32| #[trigger] m.contains_key(n) && m[n].expired_at == t;
            assert(m.contains_key(n));
        },
        CloseAction::Again => {
            let n = choose|n: u32| #[trigger] m.contains_key(n) && m[n].expired_at <= now;
            assert(m.contains_key(n));
        },
    }
}

} // verus!
