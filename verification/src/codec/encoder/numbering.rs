//! How messages become frames: how they are delivered, when they are split and into which parts,
//! and how their frames are numbered.
use bytes::Bytes;
use vstd::prelude::*;

use crate::codec::encoder::body::body_reliability;
use crate::codec::encoder::fragment::{
    counters_after, fits, frames_of, lemma_part_count, part_body, part_count, part_len, upgraded,
    Counters,
};
use crate::codec::sender::{body_waits, with_all_sent};
use crate::guard::outgoing::{frames_flushed, lemma_reliable_kept, Flush, OutgoingGuard};
use crate::guard::send_buffer::{PenaltyFrame, Waiting};
use crate::message::Priority;
use crate::packet::connected::body::{body_bytes, BodyView};
use crate::packet::connected::frame::{self, Frame, Ordered};
use crate::packet::connected::frame_set::frames_view;
use crate::packet::connected::reliability::Reliability;
use crate::sorted_queue::{insert_sorted, lemma_slot, slot, sorted, Keyed};
use crate::uint24::u24;

verus! {

/// The bodies of the handshake and of the end of a connection, which must arrive.
pub open spec fn must_arrive(body: BodyView) -> bool {
    body is ConnectionRequest || body is ConnectionRequestAccepted || body is NewIncomingConnection
        || body is DisconnectNotification || body is DetectLostConnections
}

/// What must arrive is sent until it does. The two bodies that a client sends in the handshake
/// keep their place before what the user sends; a ping and a pong are sent once, as they lose
/// their worth with time.
pub proof fn lemma_body_delivery(body: BodyView)
    ensures
        must_arrive(body) ==> body_reliability(body).reliable() && !body_reliability(
            body,
        ).sequenced(),
        body is ConnectionRequest || body is NewIncomingConnection ==> body_reliability(body)
            == Reliability::ReliableOrdered && body_reliability(body).sequenced_or_ordered(),
        body is ConnectionRequestAccepted || body is DisconnectNotification
            || body is DetectLostConnections ==> body_reliability(body) == Reliability::Reliable
            && !body_reliability(body).sequenced_or_ordered(),
        body is ConnectedPing || body is ConnectedPong ==> body_reliability(body)
            == Reliability::Unreliable && !body_reliability(body).reliable() && !body_reliability(
            body,
        ).sequenced_or_ordered(),
{
}

/// Every frame of a body that must arrive is numbered and marked as one that must arrive.
pub proof fn lemma_body_frames_reliable(c: Counters, mtu: int, body: BodyView, j: int)
    requires
        must_arrive(body),
        0 <= j < frames_of(c, mtu, body_reliability(body), 0, body_bytes(body)).len(),
    ensures
        ({
            let f = frames_of(c, mtu, body_reliability(body), 0, body_bytes(body))[j];
            f.flags.reliability.reliable() && f.reliable_frame_index is Some
        }),
{
    lemma_body_delivery(body);
}

/// The frame set that carries a frame of a body that must arrive is kept under its number: until
/// it is acknowledged, the frame is not let go of.
pub proof fn lemma_body_kept(
    before: Flush,
    after: Flush,
    guard: OutgoingGuard,
    new_guard: OutgoingGuard,
    now: u64,
    i: int,
    c: Counters,
    mtu: int,
    body: BodyView,
    j: int,
)
    requires
        frames_flushed(before, after, guard, new_guard, now),
        0 <= i < guard.buf@.packet(guard.peer.mtu as int).len(),
        must_arrive(body),
        0 <= j < frames_of(c, mtu, body_reliability(body), 0, body_bytes(body)).len(),
        guard.buf@.packet(guard.peer.mtu as int)[i]@ == frames_of(
            c,
            mtu,
            body_reliability(body),
            0,
            body_bytes(body),
        )[j],
    ensures
        new_guard.resend.map@.contains_key(guard.seq_num_write_index.0),
        new_guard.resend.map@[guard.seq_num_write_index.0].frames@.len() > i,
        new_guard.resend.map@[guard.seq_num_write_index.0].frames@[i]@ == frames_of(
            c,
            mtu,
            body_reliability(body),
            0,
            body_bytes(body),
        )[j],
{
    lemma_body_frames_reliable(c, mtu, body, j);
    let f = guard.buf@.packet(guard.peer.mtu as int)[i];
    assert(f@.flags == f.flags);
    lemma_reliable_kept(before, after, guard, new_guard, now, i);
}

/// A message that is split is sent so that every part arrives, and is otherwise delivered as it
/// was to be: its place in the order, whether only the newest counts, and whether its sender is
/// told of its arrival stay as they are.
pub proof fn lemma_upgraded(r: Reliability)
    ensures
        upgraded(r).reliable(),
        r.reliable() ==> upgraded(r) == r,
        upgraded(r).sequenced() == r.sequenced(),
        upgraded(r).sequenced_or_ordered() == r.sequenced_or_ordered(),
        (upgraded(r) is ReliableWithAckReceipt || upgraded(r) is ReliableOrderedWithAckReceipt) <==> (
        r is UnreliableWithAckReceipt || r is ReliableWithAckReceipt
            || r is ReliableOrderedWithAckReceipt),
{
}

/// A message is split only where it must be: where its frame and the header of a frame set, which
/// takes 4 bytes, do not fit in one packet. A frame that is not split carries the message as it is,
/// delivered as it is to be.
pub proof fn lemma_split_where_needed(
    c: Counters,
    mtu: int,
    r: Reliability,
    channel: u8,
    data: Seq<u8>,
)
    ensures
        ({
            let fs = frames_of(c, mtu, r, channel, data);
            let fits_whole = 4 + r.header_size() + data.len() <= mtu;
            &&& fits_whole ==> fs.len() == 1 && fs[0].fragment is None && fs[0].body == data
                && fs[0].flags.reliability == r && !fs[0].flags.parted
            &&& !fits_whole ==> forall|i: int|
                0 <= i < fs.len() ==> (#[trigger] fs[i]).fragment is Some && fs[i].flags.parted
                    && fs[i].flags.reliability == upgraded(r)
        }),
{
}

/// The parts of a split message: each but the last fills a packet to its last byte, the last one
/// is not empty, and together they hold the message, each the bytes behind those of the part
/// before. They know how many they are and which they are.
pub proof fn lemma_parts(c: Counters, mtu: int, r: Reliability, channel: u8, data: Seq<u8>)
    requires
        fits(mtu, r, data.len() as int),
        4 + r.header_size() + data.len() > mtu,
    ensures
        ({
            let fs = frames_of(c, mtu, r, channel, data);
            let per = mtu - 4 - upgraded(r).header_size() - 10;
            &&& per > 0
            &&& data.len() > 0 ==> fs.len() > 0
            &&& (fs.len() - 1) * per < data.len() <= fs.len() * per || data.len() == 0
            &&& forall|i: int|
                0 <= i < fs.len() ==> {
                    let f = #[trigger] fs[i];
                    &&& f.fragment == Some(
                        frame::Fragment {
                            parted_size: fs.len() as u32,
                            parted_id: c.parted_id,
                            parted_index: i as u32,
                        },
                    )
                    &&& i < fs.len() - 1 ==> f.body.len() == per
                    &&& i == fs.len() - 1 ==> f.body.len() == data.len() - i * per
                    &&& forall|k: int|
                        0 <= k < f.body.len() ==> #[trigger] f.body[k] == data[i * per + k]
                }
        }),
{
    let fs = frames_of(c, mtu, r, channel, data);
    let per = part_len(mtu, upgraded(r));
    let len = data.len() as int;
    lemma_part_count(len, per);
    let count = part_count(len, per);
    assert forall|i: int| 0 <= i < fs.len() implies {
        let f = #[trigger] fs[i];
        &&& f.fragment == Some(
            frame::Fragment {
                parted_size: fs.len() as u32,
                parted_id: c.parted_id,
                parted_index: i as u32,
            },
        )
        &&& i < fs.len() - 1 ==> f.body.len() == per
        &&& i == fs.len() - 1 ==> f.body.len() == data.len() - i * per
        &&& forall|k: int| 0 <= k < f.body.len() ==> #[trigger] f.body[k] == data[i * per + k]
    } by {
        assert((i + 1) * per == i * per + per) by (nonlinear_arith);
        assert(0 <= i * per) by (nonlinear_arith)
            requires
                0 <= i,
                per > 0,
        ;
        if i < count - 1 {
            assert((i + 1) * per <= (count - 1) * per) by (nonlinear_arith)
                requires
                    i + 1 <= count - 1,
                    per > 0,
            ;
        } else {
            assert((i + 1) * per == count * per);
        }
        let f = fs[i];
        assert(f.body == part_body(data, per, i));
    }
}

/// How frames are numbered: those that must arrive count up one by one from the next number, over
/// the end of the 24 bits; all frames of an ordered message have one place, the next on their
/// channel. What numbers the frames behind them has moved on by as much: the number by how many
/// frames there are, the place on the channel by one, and the id of split messages by one where
/// the message was split.
pub proof fn lemma_numbering(c: Counters, mtu: int, r: Reliability, channel: u8, data: Seq<u8>)
    requires
        channel < c.order.len(),
    ensures
        ({
            let fs = frames_of(c, mtu, r, channel, data);
            let d = counters_after(c, mtu, r, channel, data);
            let split = 4 + r.header_size() + data.len() > mtu;
            let must = r.reliable() || split;
            let placed = r.sequenced_or_ordered();
            &&& forall|i: int|
                0 <= i < fs.len() ==> {
                    let f = #[trigger] fs[i];
                    &&& f.reliable_frame_index == (if must {
                        Some(u24(((c.reliable.0 + i) % 0x100_0000) as u32))
                    } else {
                        None
                    })
                    &&& f.ordered == (if placed {
                        Some(Ordered { frame_index: c.order[channel as int], channel })
                    } else {
                        None
                    })
                    &&& f.seq_frame_index is None
                }
            &&& d.reliable == (if must {
                u24(((c.reliable.0 + fs.len()) % 0x100_0000) as u32)
            } else {
                c.reliable
            })
            &&& d.order.len() == c.order.len()
            &&& forall|k: int|
                0 <= k < c.order.len() ==> #[trigger] d.order[k] == (if placed && k == channel {
                    u24(((c.order[k].0 + 1) % 0x100_0000) as u32)
                } else {
                    c.order[k]
                })
            &&& d.parted_id == (if split {
                ((c.parted_id + 1) % 0x1_0000) as u16
            } else {
                c.parted_id
            })
        }),
{
    lemma_upgraded(r);
}

/// `after` is `before` with frames of one penalty put in, one behind the other: they stand behind
/// all of their own or a lesser penalty, the first come first, and before all of a greater one.
pub open spec fn put_in(
    before: Seq<PenaltyFrame>,
    after: Seq<PenaltyFrame>,
    penalty: u8,
    frames: Seq<Frame<Bytes>>,
) -> bool {
    exists|at: int|
        {
            &&& 0 <= at <= before.len()
            &&& after == #[trigger] before.take(at) + Seq::new(
                frames.len(),
                |i: int| PenaltyFrame { penalty, frame: frames[i] },
            ) + before.skip(at)
            &&& forall|i: int| 0 <= i < at ==> (#[trigger] before[i]).penalty <= penalty
            &&& forall|i: int| at <= i < before.len() ==> (#[trigger] before[i]).penalty > penalty
        }
}

proof fn lemma_put_in_more(
    before: Seq<PenaltyFrame>,
    mid: Seq<PenaltyFrame>,
    penalty: u8,
    frames: Seq<Frame<Bytes>>,
)
    requires
        frames.len() > 0,
        sorted(before),
        put_in(before, mid, penalty, frames.drop_last()),
    ensures
        put_in(
            before,
            insert_sorted(mid, PenaltyFrame { penalty, frame: frames.last() }),
            penalty,
            frames,
        ),
{
    let init = frames.drop_last();
    let x = PenaltyFrame { penalty, frame: frames.last() };
    let some = Seq::new(init.len(), |i: int| PenaltyFrame { penalty, frame: init[i] });
    let all = Seq::new(frames.len(), |i: int| PenaltyFrame { penalty, frame: frames[i] });
    let at = choose|at: int|
        {
            &&& 0 <= at <= before.len()
            &&& mid == #[trigger] before.take(at) + some + before.skip(at)
            &&& forall|i: int| 0 <= i < at ==> (#[trigger] before[i]).penalty <= penalty
            &&& forall|i: int| at <= i < before.len() ==> (#[trigger] before[i]).penalty > penalty
        };
    let n = some.len() as int;
    assert forall|i: int| 0 <= i < mid.len() implies (#[trigger] mid[i]) == (if i < at {
        before[i]
    } else if i < at + n {
        some[i - at]
    } else {
        before[i - n]
    }) by {}
    assert(sorted(mid)) by {
        assert forall|i: int, j: int| 0 <= i < j < mid.len() implies (
        #[trigger] mid[i]).spec_key() <= (#[trigger] mid[j]).spec_key() by {
            if j < at {
                assert(before[i].spec_key() <= before[j].spec_key());
            } else if i >= at + n {
                assert(before[i - n].spec_key() <= before[j - n].spec_key());
            } else if i < at && j >= at + n {
                assert(before[i].penalty <= penalty && before[j - n].penalty > penalty);
            }
        }
    }
    let k = slot(mid, x.spec_key());
    lemma_slot(mid, x.spec_key());
    assert(k == at + n) by {
        if k < at + n {
            assert(mid[k].penalty <= penalty);
            assert(x.spec_key() < mid[k].spec_key());
        }
        if k > at + n {
            assert(mid[at + n].penalty > penalty) by {
                assert(before[at].penalty > penalty);
            }
            assert(mid[at + n].spec_key() <= x.spec_key());
        }
    }
    assert(insert_sorted(mid, x) =~= before.take(at) + all + before.skip(at));
}

/// What waits once frames were added: those of medium priority stand behind all that waited, in
/// their order; those of high and of low priority are put at their place among those of the same
/// priority, by their penalty; what is sent again, and what has another priority, stays as it is.
pub proof fn lemma_added(w: Waiting, priority: Priority, frames: Seq<Frame<Bytes>>)
    requires
        sorted(w.high),
        sorted(w.low),
    ensures
        ({
            let after = with_all_sent(w, priority, frames);
            &&& after.resend == w.resend
            &&& match priority {
                Priority::High(p) => {
                    &&& put_in(w.high, after.high, p, frames)
                    &&& after.medium == w.medium
                    &&& after.low == w.low
                },
                Priority::Medium => {
                    &&& after.high == w.high
                    &&& after.medium == w.medium + frames
                    &&& after.low == w.low
                },
                Priority::Low(p) => {
                    &&& after.high == w.high
                    &&& after.medium == w.medium
                    &&& put_in(w.low, after.low, p, frames)
                },
            }
        }),
    decreases frames.len(),
{
    if frames.len() == 0 {
        assert(w.medium + frames =~= w.medium);
        match priority {
            Priority::High(p) => {
                lemma_nothing_put_in(w.high, p, frames);
            },
            Priority::Low(p) => {
                lemma_nothing_put_in(w.low, p, frames);
            },
            Priority::Medium => {},
        }
    } else {
        let init = frames.drop_last();
        lemma_added(w, priority, init);
        let mid = with_all_sent(w, priority, init);
        assert((w.medium + init).push(frames.last()) =~= w.medium + frames);
        match priority {
            Priority::High(p) => {
                lemma_put_in_more(w.high, mid.high, p, frames);
            },
            Priority::Low(p) => {
                lemma_put_in_more(w.low, mid.low, p, frames);
            },
            Priority::Medium => {},
        }
    }
}

proof fn lemma_nothing_put_in(s: Seq<PenaltyFrame>, penalty: u8, frames: Seq<Frame<Bytes>>)
    requires
        sorted(s),
        frames.len() == 0,
    ensures
        put_in(s, s, penalty, frames),
{
    let at = slot(s, penalty as nat);
    lemma_slot(s, penalty as nat);
    assert forall|i: int| 0 <= i < at implies (#[trigger] s[i]).penalty <= penalty by {
        assert(s[i].spec_key() <= penalty as nat);
    }
    assert forall|i: int| at <= i < s.len() implies (#[trigger] s[i]).penalty > penalty by {
        assert((penalty as nat) < s[i].spec_key());
    }
    assert(s =~= s.take(at) + Seq::new(
        frames.len(),
        |i: int| PenaltyFrame { penalty, frame: frames[i] },
    ) + s.skip(at));
}

/// Which messages fit: the headers of a frame set and of the frame must leave room for the body,
/// which may be empty; and where the message must be split, the headers with the 10 bytes on the
/// part must leave room for some of it, and the parts must be few enough to be counted.
pub proof fn lemma_fits(mtu: int, r: Reliability, len: int)
    requires
        len >= 0,
    ensures
        ({
            let per = mtu - 4 - upgraded(r).header_size() - 10;
            fits(mtu, r, len) <==> mtu >= 4 + r.header_size() && (mtu >= 4 + r.header_size() + len
                || (per > 0 && len <= 0xffff_ffff * per))
        }),
{
    let per = part_len(mtu, upgraded(r));
    if per > 0 {
        lemma_part_count(len, per);
        let n = part_count(len, per);
        if n <= 0xffff_ffff {
            assert(n * per <= 0xffff_ffff * per) by (nonlinear_arith)
                requires
                    n <= 0xffff_ffff,
                    per > 0,
            ;
        } else {
            assert((n - 1) * per >= 0xffff_ffff * per) by (nonlinear_arith)
                requires
                    n - 1 >= 0xffff_ffff,
                    per > 0,
            ;
        }
    }
}

/// A body of the protocol waits with medium priority: its frames stand behind all of medium
/// priority that waited, in their order, and nothing else that waits is touched. Where they have a
/// place in the order it is on the first channel.
pub proof fn lemma_body_queued(
    before: Waiting,
    after: Waiting,
    c: Counters,
    mtu: int,
    body: BodyView,
)
    requires
        sorted(before.high),
        sorted(before.low),
        body_waits(before, after, c, mtu, body),
    ensures
        after.resend == before.resend,
        after.high == before.high,
        after.low == before.low,
        after.medium.len() >= before.medium.len(),
        after.medium.take(before.medium.len() as int) == before.medium,
        frames_view(after.medium.skip(before.medium.len() as int)) == frames_of(
            c,
            mtu,
            body_reliability(body),
            0,
            body_bytes(body),
        ),
        forall|i: int|
            before.medium.len() <= i < after.medium.len() ==> ((
            #[trigger] after.medium[i]).ordered matches Some(o) ==> o.channel == 0),
{
    let frames = choose|frames: Seq<Frame<Bytes>>|
        {
            &&& frames_view(frames) == frames_of(
                c,
                mtu,
                body_reliability(body),
                0,
                body_bytes(body),
            )
            &&& after == #[trigger] with_all_sent(before, Priority::Medium, frames)
        };
    lemma_added(before, Priority::Medium, frames);
    let n = before.medium.len() as int;
    assert(after.medium.take(n) =~= before.medium);
    assert(after.medium.skip(n) =~= frames);
    assert forall|i: int| n <= i < after.medium.len() implies ((
    #[trigger] after.medium[i]).ordered matches Some(o) ==> o.channel == 0) by {
        let k = i - n;
        let fs = frames_of(c, mtu, body_reliability(body), 0, body_bytes(body));
        assert(after.medium[i] == frames[k]);
        assert(frames_view(frames).len() == frames.len());
        assert(frames_view(frames)[k] == frames[k]@);
        assert(fs[k].ordered matches Some(o) ==> o.channel == 0);
        assert(fs[k].ordered == frames[k].ordered);
    }
}

} // verus!
