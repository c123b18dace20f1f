//! What the two halves of a connection, the one that receives and the one that sends, hand over
//! to each other.
use bytes::{Bytes, BytesMut};
use concurrent_queue::ConcurrentQueue;
use vstd::prelude::*;

use crate::codec::decoder::fragment::{accepted, send_range, DeFragment, SeqQueue};
use crate::errors::CodecError;
use crate::handover::{
    forced, lemma_forced, queue_bounded, queue_force_push, queue_is_empty, queue_items, queue_limit,
    queue_open, queue_pop, queue_push, queue_unbounded, Handover,
};
use crate::packet::connected::ack::{
    has_room, records_size, runs, AckOrNack,
};
use crate::packet::connected::body::PlainBody;
use crate::packet::connected::frame::Frame;
use crate::packet::connected::frame_set::{frames_view, FrameSet};
use crate::packet::connected::packet as connected;
use crate::packet::unconnected;
use crate::sorted_queue::{insert_all, insert_sorted, sorted};
use crate::uint24::{number_range, u24};

verus! {

/// How many ACKs, and how many NACKs, wait to be processed at most. To avoid an ack flood, the
/// oldest gives way to a new one where there is no room.
pub const MAX_ACK_BUFFER: usize = 1024;

/// What waits on a link.
pub ghost struct LinkView {
    /// The ACKs that arrived.
    pub incoming_ack: Seq<Handover>,
    /// The NACKs that arrived.
    pub incoming_nack: Seq<Handover>,
    /// The numbers to acknowledge, in order.
    pub outgoing_ack: Seq<u24>,
    /// The numbers to ask for again, in order.
    pub outgoing_nack: Seq<u24>,
    /// The unconnected packets to send.
    pub unconnected: Seq<Handover>,
    /// The frame bodies to send.
    pub frame_body: Seq<Handover>,
}

/// Transfers data and tasks between the two halves of a connection.
pub struct TransferLink {
    incoming_ack: ConcurrentQueue<Handover>,
    incoming_nack: ConcurrentQueue<Handover>,
    outgoing_ack: SeqQueue,
    outgoing_nack: SeqQueue,
    unconnected: ConcurrentQueue<Handover>,
    frame_body: ConcurrentQueue<Handover>,
}

/// All numbers fit in 24 bits.
pub open spec fn numbers_wf(s: Seq<u24>) -> bool {
    forall|i: int| 0 <= i < s.len() ==> (#[trigger] s[i]).wf()
}

/// Each item is an ACK with numbers of 24 bits.
pub open spec fn all_acks(s: Seq<Handover>) -> bool {
    forall|i: int|
        0 <= i < s.len() ==> ((#[trigger] s[i]) matches Handover::Ack { records, .. }
            && records.wf())
}

/// Each item is a NACK with numbers of 24 bits.
pub open spec fn all_nacks(s: Seq<Handover>) -> bool {
    forall|i: int|
        0 <= i < s.len() ==> ((#[trigger] s[i]) matches Handover::Nack(records) && records.wf())
}

/// Each item is an unconnected packet.
pub open spec fn all_unconnected(s: Seq<Handover>) -> bool {
    forall|i: int| 0 <= i < s.len() ==> (#[trigger] s[i]) is Unconnected
}

/// Each item is a frame body of the protocol.
pub open spec fn all_bodies(s: Seq<Handover>) -> bool {
    forall|i: int|
        0 <= i < s.len() ==> ((#[trigger] s[i]) matches Handover::Body(body) && !(body is User))
}

impl LinkView {
    /// Every queue holds what it is for, the numbers are in order, and no flood of ACKs or NACKs
    /// piles up.
    pub open spec fn wf(self) -> bool {
        &&& all_acks(self.incoming_ack)
        &&& all_nacks(self.incoming_nack)
        &&& all_unconnected(self.unconnected)
        &&& all_bodies(self.frame_body)
        &&& self.incoming_ack.len() <= MAX_ACK_BUFFER
        &&& self.incoming_nack.len() <= MAX_ACK_BUFFER
        &&& sorted(self.outgoing_ack)
        &&& sorted(self.outgoing_nack)
        &&& numbers_wf(self.outgoing_ack)
        &&& numbers_wf(self.outgoing_nack)
    }

    /// Nothing waits to be flushed.
    pub open spec fn flushed(self) -> bool {
        self.outgoing_ack.len() == 0 && self.outgoing_nack.len() == 0 && self.unconnected.len()
            == 0
    }
}

/// `r` are the numbers at the front of `s` that fit in one packet, compressed; `rest` is left.
pub open spec fn compressed(s: Seq<u24>, rest: Seq<u24>, mtu: u16, r: Option<AckOrNack>) -> bool {
    match r {
        None => s.len() == 0 && rest == s,
        Some(ack) => {
            let n = s.len() - rest.len();
            &&& 1 <= n <= s.len()
            &&& rest == s.skip(n)
            &&& ack.records@ == runs(s.take(n))
            &&& n == s.len() || !has_room(s, n, mtu)
            &&& forall|k: int| 1 <= k < n ==> has_room(s, k, mtu)
            &&& 3 + records_size(ack.records@) <= mtu
        },
    }
}

/// What waits on a link once a packet arrived at `received_at`, and the frame set that is passed
/// on, where it is one.
pub open spec fn filtered(
    link: LinkView,
    packet: connected::Packet<Vec<Frame<BytesMut>>>,
    received_at: u64,
) -> (LinkView, Option<FrameSet<Vec<Frame<BytesMut>>>>) {
    match packet {
        connected::Packet::FrameSet(set) => (link, Some(set)),
        connected::Packet::Ack(records) => (
            LinkView {
                incoming_ack: forced(
                    link.incoming_ack,
                    MAX_ACK_BUFFER as nat,
                    Handover::Ack { records, received_at },
                ),
                ..link
            },
            None,
        ),
        connected::Packet::Nack(records) => (
            LinkView {
                incoming_nack: forced(
                    link.incoming_nack,
                    MAX_ACK_BUFFER as nat,
                    Handover::Nack(records),
                ),
                ..link
            },
            None,
        ),
    }
}

impl View for TransferLink {
    type V = LinkView;

    closed spec fn view(&self) -> LinkView {
        LinkView {
            incoming_ack: queue_items(self.incoming_ack),
            incoming_nack: queue_items(self.incoming_nack),
            outgoing_ack: self.outgoing_ack@,
            outgoing_nack: self.outgoing_nack@,
            unconnected: queue_items(self.unconnected),
            frame_body: queue_items(self.frame_body),
        }
    }
}

impl TransferLink {
    /// What waits is in order, and the queues are as they were made.
    pub closed spec fn wf(self) -> bool {
        &&& self@.wf()
        &&& queue_open(self.incoming_ack) && queue_limit(self.incoming_ack) == Some(
            MAX_ACK_BUFFER as nat,
        )
        &&& queue_open(self.incoming_nack) && queue_limit(self.incoming_nack) == Some(
            MAX_ACK_BUFFER as nat,
        )
        &&& queue_open(self.unconnected) && queue_limit(self.unconnected) is None
        &&& queue_open(self.frame_body) && queue_limit(self.frame_body) is None
    }

    /// What waits on a link is in order.
    pub proof fn lemma_view_wf(&self)
        requires
            self.wf(),
        ensures
            self@.wf(),
    {
    }

    /// A link on which nothing waits.
    pub fn new() -> (r: TransferLink)
        ensures
            r.wf(),
            r@ == (LinkView {
                incoming_ack: Seq::empty(),
                incoming_nack: Seq::empty(),
                outgoing_ack: Seq::empty(),
                outgoing_nack: Seq::empty(),
                unconnected: Seq::empty(),
                frame_body: Seq::empty(),
            }),
    {
        TransferLink {
            incoming_ack: queue_bounded(MAX_ACK_BUFFER),
            incoming_nack: queue_bounded(MAX_ACK_BUFFER),
            outgoing_ack: SeqQueue::new(),
            outgoing_nack: SeqQueue::new(),
            unconnected: queue_unbounded(),
            frame_body: queue_unbounded(),
        }
    }

    /// An ACK arrived. The one that gives way to it, if there is one, is handed back.
    pub fn incoming_ack(&mut self, records: AckOrNack, received_at: u64) -> (r: Option<Handover>)
        requires
            old(self).wf(),
            records.wf(),
        ensures
            final(self).wf(),
            final(self)@ == (LinkView {
                incoming_ack: forced(
                    old(self)@.incoming_ack,
                    MAX_ACK_BUFFER as nat,
                    Handover::Ack { records, received_at },
                ),
                ..old(self)@
            }),
            r == (if old(self)@.incoming_ack.len() < MAX_ACK_BUFFER {
                None
            } else {
                Some(old(self)@.incoming_ack[0])
            }),
    {
        queue_force_push(&mut self.incoming_ack, Handover::Ack { records, received_at })
    }

    /// A NACK arrived. The one that gives way to it, if there is one, is handed back.
    pub fn incoming_nack(&mut self, records: AckOrNack) -> (r: Option<Handover>)
        requires
            old(self).wf(),
            records.wf(),
        ensures
            final(self).wf(),
            final(self)@ == (LinkView {
                incoming_nack: forced(
                    old(self)@.incoming_nack,
                    MAX_ACK_BUFFER as nat,
                    Handover::Nack(records),
                ),
                ..old(self)@
            }),
            r == (if old(self)@.incoming_nack.len() < MAX_ACK_BUFFER {
                None
            } else {
                Some(old(self)@.incoming_nack[0])
            }),
    {
        queue_force_push(&mut self.incoming_nack, Handover::Nack(records))
    }

    /// A frame set is to be acknowledged.
    pub fn outgoing_ack(&mut self, seq_num: u24)
        requires
            old(self).wf(),
            seq_num.wf(),
        ensures
            final(self).wf(),
            final(self)@ == (LinkView {
                outgoing_ack: insert_sorted(old(self)@.outgoing_ack, seq_num),
                ..old(self)@
            }),
    {
        proof {
            lemma_insert_wf(self@.outgoing_ack, seq_num);
        }
        self.outgoing_ack.push(seq_num);
    }

    /// A frame set is to be asked for again.
    pub fn outgoing_nack(&mut self, seq_num: u24)
        requires
            old(self).wf(),
            seq_num.wf(),
        ensures
            final(self).wf(),
            final(self)@ == (LinkView {
                outgoing_nack: insert_sorted(old(self)@.outgoing_nack, seq_num),
                ..old(self)@
            }),
    {
        proof {
            lemma_insert_wf(self@.outgoing_nack, seq_num);
        }
        self.outgoing_nack.push(seq_num);
    }

    /// The frame sets from `from` up to, but not including, `to` are to be asked for again.
    pub fn outgoing_nack_batch(&mut self, from: u24, to: u24)
        requires
            old(self).wf(),
            to.wf(),
        ensures
            final(self).wf(),
            final(self)@ == (LinkView {
                outgoing_nack: insert_all(
                    old(self)@.outgoing_nack,
                    number_range(from, to),
                ),
                ..old(self)@
            }),
    {
        proof {
            lemma_insert_all_wf(self@.outgoing_nack, number_range(from, to));
        }
        send_range(&mut self.outgoing_nack, from, to);
    }

    /// Has a layer take in a frame set, and takes over what is to be acknowledged and what is to
    /// be asked for again.
    pub fn defragment(
        &mut self,
        layer: &mut DeFragment,
        frame_set: FrameSet<Vec<Frame<BytesMut>>>,
    ) -> (r: Result<(), CodecError>)
        requires
            old(self).wf(),
            old(layer).wf(),
            frame_set.seq_num.wf(),
        ensures
            final(self).wf(),
            final(layer).wf(),
            accepted(
                *old(layer),
                *final(layer),
                frame_set.seq_num,
                frames_view(frame_set.set@),
                (old(self)@.outgoing_ack, old(self)@.outgoing_nack),
                (final(self)@.outgoing_ack, final(self)@.outgoing_nack),
                r,
            ),
            final(self)@ == (LinkView {
                outgoing_ack: final(self)@.outgoing_ack,
                outgoing_nack: final(self)@.outgoing_nack,
                ..old(self)@
            }),
    {
        proof {
            lemma_insert_wf(self@.outgoing_ack, frame_set.seq_num);
            lemma_insert_wf(self@.outgoing_nack, frame_set.seq_num);
            lemma_insert_all_wf(
                self@.outgoing_nack,
                number_range(layer.seq_num_read_index, frame_set.seq_num),
            );
        }
        layer.accept(frame_set, &mut self.outgoing_ack, &mut self.outgoing_nack)
    }

    /// An unconnected packet is to be sent.
    pub fn send_unconnected(&mut self, packet: unconnected::Packet<Bytes>)
        requires
            old(self).wf(),
        ensures
            final(self).wf(),
            final(self)@ == (LinkView {
                unconnected: old(self)@.unconnected.push(Handover::Unconnected(packet)),
                ..old(self)@
            }),
    {
        queue_push(&mut self.unconnected, Handover::Unconnected(packet))
    }

    /// A body of the protocol is to be sent in a frame. A user sends messages, not bodies.
    pub fn send_frame_body(&mut self, body: PlainBody)
        requires
            old(self).wf(),
            !(body is User),
        ensures
            final(self).wf(),
            final(self)@ == (LinkView {
                frame_body: old(self)@.frame_body.push(Handover::Body(body)),
                ..old(self)@
            }),
    {
        queue_push(&mut self.frame_body, Handover::Body(body))
    }

    /// The next ACK that arrived, and when.
    pub fn process_ack(&mut self) -> (r: Option<(AckOrNack, u64)>)
        requires
            old(self).wf(),
        ensures
            final(self).wf(),
            match r {
                Some((records, received_at)) => {
                    &&& old(self)@.incoming_ack.len() > 0
                    &&& old(self)@.incoming_ack[0] == (Handover::Ack { records, received_at })
                    &&& records.wf()
                    &&& final(self)@ == (LinkView {
                        incoming_ack: old(self)@.incoming_ack.skip(1),
                        ..old(self)@
                    })
                },
                None => old(self)@.incoming_ack.len() == 0 && final(self)@ == old(self)@,
            },
    {
        match queue_pop(&mut self.incoming_ack) {
            Some(Handover::Ack { records, received_at }) => Some((records, received_at)),
            _ => None,
        }
    }

    /// The next NACK that arrived.
    pub fn process_nack(&mut self) -> (r: Option<AckOrNack>)
        requires
            old(self).wf(),
        ensures
            final(self).wf(),
            match r {
                Some(records) => {
                    &&& old(self)@.incoming_nack.len() > 0
                    &&& old(self)@.incoming_nack[0] == Handover::Nack(records)
                    &&& records.wf()
                    &&& final(self)@ == (LinkView {
                        incoming_nack: old(self)@.incoming_nack.skip(1),
                        ..old(self)@
                    })
                },
                None => old(self)@.incoming_nack.len() == 0 && final(self)@ == old(self)@,
            },
    {
        match queue_pop(&mut self.incoming_nack) {
            Some(Handover::Nack(records)) => Some(records),
            _ => None,
        }
    }

    /// An ACK for as many frame sets as fit in one packet.
    pub fn process_outgoing_ack(&mut self, mtu: u16) -> (r: Option<AckOrNack>)
        requires
            old(self).wf(),
            mtu >= 7,
        ensures
            final(self).wf(),
            compressed(old(self)@.outgoing_ack, final(self)@.outgoing_ack, mtu, r),
            final(self)@ == (LinkView { outgoing_ack: final(self)@.outgoing_ack, ..old(self)@ }),
    {
        AckOrNack::extend_from(&mut self.outgoing_ack.items, mtu)
    }

    /// A NACK for as many frame sets as fit in one packet.
    pub fn process_outgoing_nack(&mut self, mtu: u16) -> (r: Option<AckOrNack>)
        requires
            old(self).wf(),
            mtu >= 7,
        ensures
            final(self).wf(),
            compressed(old(self)@.outgoing_nack, final(self)@.outgoing_nack, mtu, r),
            final(self)@ == (LinkView { outgoing_nack: final(self)@.outgoing_nack, ..old(self)@ }),
    {
        AckOrNack::extend_from(&mut self.outgoing_nack.items, mtu)
    }

    /// The next unconnected packet to send.
    pub fn process_unconnected(&mut self) -> (r: Option<unconnected::Packet<Bytes>>)
        requires
            old(self).wf(),
        ensures
            final(self).wf(),
            match r {
                Some(packet) => {
                    &&& old(self)@.unconnected.len() > 0
                    &&& old(self)@.unconnected[0] == Handover::Unconnected(packet)
                    &&& final(self)@ == (LinkView {
                        unconnected: old(self)@.unconnected.skip(1),
                        ..old(self)@
                    })
                },
                None => old(self)@.unconnected.len() == 0 && final(self)@ == old(self)@,
            },
    {
        match queue_pop(&mut self.unconnected) {
            Some(Handover::Unconnected(packet)) => Some(packet),
            _ => None,
        }
    }

    /// The next body to send in a frame.
    pub fn process_frame_body(&mut self) -> (r: Option<PlainBody>)
        requires
            old(self).wf(),
        ensures
            final(self).wf(),
            match r {
                Some(body) => {
                    &&& old(self)@.frame_body.len() > 0
                    &&& old(self)@.frame_body[0] == Handover::Body(body)
                    &&& !(body is User)
                    &&& final(self)@ == (LinkView {
                        frame_body: old(self)@.frame_body.skip(1),
                        ..old(self)@
                    })
                },
                None => old(self)@.frame_body.len() == 0 && final(self)@ == old(self)@,
            },
    {
        match queue_pop(&mut self.frame_body) {
            Some(Handover::Body(body)) => Some(body),
            _ => None,
        }
    }

    /// Whether nothing is to be acknowledged.
    pub fn outgoing_ack_empty(&self) -> (r: bool)
        ensures
            r == (self@.outgoing_ack.len() == 0),
    {
        self.outgoing_ack.is_empty()
    }

    /// Whether nothing is to be asked for again.
    pub fn outgoing_nack_empty(&self) -> (r: bool)
        ensures
            r == (self@.outgoing_nack.len() == 0),
    {
        self.outgoing_nack.is_empty()
    }

    /// Whether no unconnected packet is to be sent.
    pub fn unconnected_empty(&self) -> (r: bool)
        ensures
            r == (self@.unconnected.len() == 0),
    {
        queue_is_empty(&self.unconnected)
    }

    /// Return whether the flush buffer is empty.
    pub fn flush_empty(&self) -> (r: bool)
        ensures
            r == self@.flushed(),
    {
        self.outgoing_ack_empty() && self.outgoing_nack_empty() && self.unconnected_empty()
    }

    /// Return whether the frame body buffer is empty.
    pub fn frame_body_empty(&self) -> (r: bool)
        ensures
            r == (self@.frame_body.len() == 0),
    {
        queue_is_empty(&self.frame_body)
    }

    /// Delivers an acknowledgement into the link and passes a frame set on.
    pub fn filter_incoming_ack(
        &mut self,
        packet: connected::Packet<Vec<Frame<BytesMut>>>,
        received_at: u64,
    ) -> (r: Option<FrameSet<Vec<Frame<BytesMut>>>>)
        requires
            old(self).wf(),
            packet@.wf(),
        ensures
            final(self).wf(),
            (final(self)@, r) == filtered(old(self)@, packet, received_at),
            match packet {
                connected::Packet::FrameSet(set) => r == Some(set) && final(self)@ == old(self)@,
                connected::Packet::Ack(records) => {
                    &&& r is None
                    &&& final(self)@ == (LinkView {
                        incoming_ack: forced(
                            old(self)@.incoming_ack,
                            MAX_ACK_BUFFER as nat,
                            Handover::Ack { records, received_at },
                        ),
                        ..old(self)@
                    })
                },
                connected::Packet::Nack(records) => {
                    &&& r is None
                    &&& final(self)@ == (LinkView {
                        incoming_nack: forced(
                            old(self)@.incoming_nack,
                            MAX_ACK_BUFFER as nat,
                            Handover::Nack(records),
                        ),
                        ..old(self)@
                    })
                },
            },
    {
        match packet {
            connected::Packet::FrameSet(set) => Some(set),
            connected::Packet::Ack(records) => {
                self.incoming_ack(records, received_at);
                None
            },
            connected::Packet::Nack(records) => {
                self.incoming_nack(records);
                None
            },
        }
    }
}

pub(crate) proof fn lemma_insert_wf(s: Seq<u24>, n: u24)
    requires
        sorted(s),
        numbers_wf(s),
        n.wf(),
    ensures
        numbers_wf(insert_sorted(s, n)),
{
    crate::sorted_queue::lemma_slot(s, n.0 as nat);
}

pub(crate) proof fn lemma_insert_all_wf(s: Seq<u24>, ns: Seq<u24>)
    requires
        sorted(s),
        numbers_wf(s),
        numbers_wf(ns),
    ensures
        numbers_wf(insert_all(s, ns)),
        sorted(insert_all(s, ns)),
    decreases ns.len(),
{
    if ns.len() > 0 {
        lemma_insert_all_wf(s, ns.drop_last());
        assert(ns[ns.len() - 1].wf());
        lemma_insert_wf(insert_all(s, ns.drop_last()), ns.last());
        crate::sorted_queue::lemma_insert_sorted(insert_all(s, ns.drop_last()), ns.last());
    }
}

/// What a packet of the peer does to a link. A frame set is passed on as it is and leaves the link
/// alone. An ACK waits as the last of the ACKs, with the time it arrived at, a NACK as the last of
/// the NACKs; at most 1024 of each wait, and only the oldest gives way. What is to be sent stays
/// as it is.
pub proof fn lemma_filtered(
    link: LinkView,
    packet: connected::Packet<Vec<Frame<BytesMut>>>,
    received_at: u64,
)
    requires
        link.incoming_ack.len() <= 1024,
        link.incoming_nack.len() <= 1024,
    ensures
        ({
            let (after, passed) = filtered(link, packet, received_at);
            &&& after.outgoing_ack == link.outgoing_ack
            &&& after.outgoing_nack == link.outgoing_nack
            &&& after.unconnected == link.unconnected
            &&& after.frame_body == link.frame_body
            &&& packet matches connected::Packet::FrameSet(set) ==> {
                &&& passed == Some(set)
                &&& after == link
            }
            &&& packet matches connected::Packet::Ack(ack) ==> {
                &&& passed is None
                &&& after.incoming_nack == link.incoming_nack
                &&& after.incoming_ack.len() <= 1024
                &&& after.incoming_ack.last() == (Handover::Ack { records: ack, received_at })
                &&& link.incoming_ack.len() < 1024 ==> after.incoming_ack.drop_last()
                    == link.incoming_ack
                &&& link.incoming_ack.len() == 1024 ==> after.incoming_ack.drop_last()
                    == link.incoming_ack.drop_first()
            }
            &&& packet matches connected::Packet::Nack(nack) ==> {
                &&& passed is None
                &&& after.incoming_ack == link.incoming_ack
                &&& after.incoming_nack.len() <= 1024
                &&& after.incoming_nack.last() == Handover::Nack(nack)
                &&& link.incoming_nack.len() < 1024 ==> after.incoming_nack.drop_last()
                    == link.incoming_nack
                &&& link.incoming_nack.len() == 1024 ==> after.incoming_nack.drop_last()
                    == link.incoming_nack.drop_first()
            }
        }),
{
    match packet {
        connected::Packet::FrameSet(_) => {},
        connected::Packet::Ack(records) => {
            lemma_forced(link.incoming_ack, 1024, Handover::Ack { records, received_at });
        },
        connected::Packet::Nack(records) => {
            lemma_forced(link.incoming_nack, 1024, Handover::Nack(records));
        },
    }
}

} // verus!
