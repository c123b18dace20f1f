//! The whole way out: from messages and bodies to the frames that wait to be sent.
use bytes::Bytes;
use vstd::prelude::*;

use crate::buf::{bytes_len, Contents};
use crate::codec::delivery::lemma_frame_bodies;
use crate::codec::encoder::body::{body_reliability, encode};
use crate::codec::encoder::fragment::{
    counters_after, fits, frames_of, needs_split, part_len, upgrade, upgraded, Counters, Fragment,
};
use crate::codec::encoder::numbering::{lemma_added, put_in};
use crate::guard::outgoing::OutgoingGuard;
use crate::guard::send_buffer::{PenaltyFrame, Waiting};
use crate::message::{Message, Priority};
use crate::packet::connected::body::{body_bytes, BodyView, PlainBody};
use crate::packet::connected::frame::{Frame, BODY_LIMIT, FRAGMENT_PART_SIZE};
use crate::packet::connected::frame_set::{frames_view, FRAME_SET_HEADER_SIZE};
use crate::packet::connected::reliability::Reliability;
use crate::sorted_queue::{insert_sorted, sorted};

verus! {

/// What waits once a frame was added.
pub open spec fn with_sent(w: Waiting, priority: Priority, frame: Frame<Bytes>) -> Waiting {
    match priority {
        Priority::High(penalty) => Waiting {
            high: insert_sorted(w.high, PenaltyFrame { penalty, frame }),
            ..w
        },
        Priority::Medium => Waiting { medium: w.medium.push(frame), ..w },
        Priority::Low(penalty) => Waiting {
            low: insert_sorted(w.low, PenaltyFrame { penalty, frame }),
            ..w
        },
    }
}

/// What waits once frames were added, one after the other.
pub open spec fn with_all_sent(w: Waiting, priority: Priority, frames: Seq<Frame<Bytes>>) -> Waiting
    decreases frames.len(),
{
    if frames.len() == 0 {
        w
    } else {
        with_sent(with_all_sent(w, priority, frames.drop_last()), priority, frames.last())
    }
}

/// A message of these properties was split into frames, and they wait to be sent.
pub open spec fn message_waits(
    before: Waiting,
    after: Waiting,
    c: Counters,
    mtu: int,
    msg: Message,
) -> bool {
    exists|frames: Seq<Frame<Bytes>>|
        {
            &&& frames_view(frames) == frames_of(
                c,
                mtu,
                msg.reliability,
                msg.order_channel,
                msg.data.seq(),
            )
            &&& after == #[trigger] with_all_sent(before, msg.priority, frames)
        }
}

/// No frame of a message of `len` bytes is too long to be written.
pub open spec fn bodies_writable(mtu: int, r: Reliability, len: int) -> bool {
    if needs_split(mtu, r, len) {
        part_len(mtu, upgraded(r)) < BODY_LIMIT
    } else {
        len < BODY_LIMIT
    }
}

/// Converts messages into frames.
#[derive(Debug)]
pub struct Sender {
    pub fragment: Fragment,
}

impl Sender {
    /// Every number fits in 24 bits.
    pub open spec fn wf(self) -> bool {
        self.fragment.wf()
    }

    /// A message of this length can be sent: the packets are large enough, and its frames can be
    /// written.
    pub open spec fn takes(self, r: Reliability, len: int) -> bool {
        fits(self.fragment.mtu as int, r, len) && bodies_writable(self.fragment.mtu as int, r, len)
    }

    /// A sender for packets of `mtu` bytes with this many order channels.
    pub fn new(mtu: u16, max_channels: usize) -> (r: Sender)
        ensures
            r.wf(),
            r.fragment.mtu == mtu,
            r.fragment.counters() == (Counters {
                reliable: crate::uint24::u24(0),
                order: Seq::new(max_channels as nat, |i: int| crate::uint24::u24(0)),
                parted_id: 0,
            }),
    {
        Sender { fragment: Fragment::new(mtu as usize, max_channels) }
    }

    /// Whether a message can be sent.
    pub fn accepts(&self, msg: &Message) -> (r: bool)
        ensures
            r == (msg.order_channel < self.fragment.order_write_index@.len() && self.takes(
                msg.reliability,
                msg.data.seq().len() as int,
            )),
    {
        if !self.fragment.accepts(msg) {
            return false;
        }
        let len: usize = bytes_len(&msg.data);
        let room: usize = self.fragment.mtu - FRAME_SET_HEADER_SIZE - msg.reliability.size();
        if len <= room {
            return len < BODY_LIMIT;
        }
        let header: usize = FRAME_SET_HEADER_SIZE + upgrade(msg.reliability).size()
            + FRAGMENT_PART_SIZE;
        self.fragment.mtu - header < BODY_LIMIT
    }

    /// Splits a message where it must be, and hands its frames to the guard.
    pub fn send_message(&mut self, msg: Message, guard: &mut OutgoingGuard)
        requires
            old(self).wf(),
            old(guard).wf(),
            msg.order_channel < old(self).fragment.order_write_index@.len(),
            old(self).takes(msg.reliability, msg.data.seq().len() as int),
        ensures
            final(self).wf(),
            final(guard).wf(),
            final(self).fragment.mtu == old(self).fragment.mtu,
            final(self).fragment.counters() == counters_after(
                old(self).fragment.counters(),
                old(self).fragment.mtu as int,
                msg.reliability,
                msg.order_channel,
                msg.data.seq(),
            ),
            message_waits(
                old(guard).buf@,
                final(guard).buf@,
                old(self).fragment.counters(),
                old(self).fragment.mtu as int,
                msg,
            ),
            *final(guard) == (OutgoingGuard { buf: final(guard).buf, ..*old(guard) }),
            final(guard).buf.cap == old(guard).buf.cap,
    {
        let ghost c = self.fragment.counters();
        let ghost mtu = self.fragment.mtu as int;
        let ghost r = msg.reliability;
        let ghost data = msg.data.seq();
        let ghost start = guard.buf@;
        let priority = msg.priority;
        let ghost channel = msg.order_channel;
        let frames = self.fragment.fragment(msg);
        let ghost all = frames@;
        proof {
            assert forall|i: int| 0 <= i < all.len() implies (#[trigger] all[i])@.body.len()
                < BODY_LIMIT by {
                assert(frames_view(all)[i] == all[i]@);
                lemma_frame_bodies(c, mtu, r, channel, data, i);
            }
            assert(all.take(0) =~= Seq::empty());
        }
        for frame in iter: frames.into_iter()
            invariant
                guard.wf(),
                iter.seq() == all,
                forall|i: int| 0 <= i < all.len() ==> (#[trigger] all[i])@.body.len() < BODY_LIMIT,
                *guard == (OutgoingGuard { buf: guard.buf, ..*old(guard) }),
                guard.buf.cap == old(guard).buf.cap,
                guard.buf@ == with_all_sent(start, priority, all.take(iter.index() as int)),
        {
            let ghost i = iter.index() as int;
            proof {
                assert(frame == all[i]);
                assert(all.take(i + 1).drop_last() =~= all.take(i));
                assert(all.take(i + 1).last() == frame);
            }
            guard.send(priority, frame);
        }
        assert(all.take(all.len() as int) =~= all);
        assert(guard.buf@ == with_all_sent(start, msg.priority, all));
    }

    /// Hands a body of the protocol to the guard, as a message. A user sends messages, not bodies.
    pub fn send_body(&mut self, body: PlainBody, guard: &mut OutgoingGuard)
        requires
            old(self).wf(),
            old(guard).wf(),
            !(body is User),
            old(self).fragment.order_write_index@.len() > 0,
            old(self).takes(body_reliability(body@), body_bytes(body@).len() as int),
        ensures
            final(self).wf(),
            final(guard).wf(),
            final(self).fragment.mtu == old(self).fragment.mtu,
            final(self).fragment.counters() == counters_after(
                old(self).fragment.counters(),
                old(self).fragment.mtu as int,
                body_reliability(body@),
                0,
                body_bytes(body@),
            ),
            body_waits(
                old(guard).buf@,
                final(guard).buf@,
                old(self).fragment.counters(),
                old(self).fragment.mtu as int,
                body@,
            ),
            *final(guard) == (OutgoingGuard { buf: final(guard).buf, ..*old(guard) }),
            final(guard).buf.cap == old(guard).buf.cap,
    {
        let msg = encode(body);
        self.send_message(msg, guard);
    }
}

/// A body was split into frames of medium priority on the first channel, and they wait to be sent.
pub open spec fn body_waits(
    before: Waiting,
    after: Waiting,
    c: Counters,
    mtu: int,
    body: BodyView,
) -> bool {
    exists|frames: Seq<Frame<Bytes>>|
        {
            &&& frames_view(frames) == frames_of(
                c,
                mtu,
                body_reliability(body),
                0,
                body_bytes(body),
            )
            &&& after == #[trigger] with_all_sent(before, Priority::Medium, frames)
        }
}

/// Which messages can be written: the body of a frame has fewer than 8191 bytes, that of the whole
/// message where it is not split, and that of a full part where it is.
pub proof fn lemma_writable(mtu: int, r: Reliability, len: int)
    ensures
        4 + r.header_size() + len <= mtu ==> (bodies_writable(mtu, r, len) <==> len < 8191),
        4 + r.header_size() + len > mtu ==> (bodies_writable(mtu, r, len) <==> mtu - 4 - upgraded(
            r,
        ).header_size() - 10 < 8191),
{
}

/// What waits once a message was sent, frame by frame: its frames, and no others, were added with
/// its priority, in their order.
pub proof fn lemma_message_queued(
    before: Waiting,
    after: Waiting,
    c: Counters,
    mtu: int,
    msg: Message,
)
    requires
        sorted(before.high),
        sorted(before.low),
        message_waits(before, after, c, mtu, msg),
    ensures
        after.resend == before.resend,
        exists|frames: Seq<Frame<Bytes>>|
            {
                &&& #[trigger] frames_view(frames) == frames_of(
                    c,
                    mtu,
                    msg.reliability,
                    msg.order_channel,
                    msg.data.seq(),
                )
                &&& match msg.priority {
                    Priority::High(p) => {
                        &&& put_in(before.high, after.high, p, frames)
                        &&& after.medium == before.medium
                        &&& after.low == before.low
                    },
                    Priority::Medium => {
                        &&& after.high == before.high
                        &&& after.medium == before.medium + frames
                        &&& after.low == before.low
                    },
                    Priority::Low(p) => {
                        &&& after.high == before.high
                        &&& after.medium == before.medium
                        &&& put_in(before.low, after.low, p, frames)
                    },
                }
            },
{
    let frames = choose|frames: Seq<Frame<Bytes>>|
        {
            &&& frames_view(frames) == frames_of(
                c,
                mtu,
                msg.reliability,
                msg.order_channel,
                msg.data.seq(),
            )
            &&& after == #[trigger] with_all_sent(before, msg.priority, frames)
        };
    lemma_added(before, msg.priority, frames);
}

} // verus!
