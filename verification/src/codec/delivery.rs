//! What holds of the way out and the way in together: a message arrives as it was sent.
use vstd::prelude::*;

use crate::codec::arrival::{arrivals, fresh_sets, frames_only};
use crate::codec::assembly::{
    as_parts, assembled, is_message, lemma_assembled, lemma_assembled_once,
    lemma_assembled_over_sets, lemma_shuffled, numbered_apart, numbers_of, shuffled,
};
use crate::codec::decoder::dedup::{fresh_frames, lemma_all_fresh};
use crate::codec::decoder::fragment::{collect_all, collect_sets, Collected};
use crate::codec::decoder::parts::{joined, lookup, merged, others};
use crate::codec::encoder::fragment::{
    advanced, fits, frames_of, lemma_part_count, max_len, needs_split, numbered, part_body,
    part_count, part_len, upgraded, Counters,
};
use crate::errors::{CodecError, PartedError};
use crate::packet::connected::flags::{lemma_new_flags, Flags};
use crate::packet::connected::frame::{Frame, BODY_LIMIT};
use crate::packet::connected::frame_set::{FrameSet, FRAME_SET_HEADER_SIZE};
use crate::packet::connected::packet as connected;
use crate::packet::connected::reliability::Reliability;
use crate::packet::datagram::{lemma_packet_roundtrip, parse_packet, PacketView};
use crate::uint24::{u24, U24_RANGE};

verus! {

/// Every frame of a message fits in a packet behind the header of a frame set, and the parts of a
/// split message carry its bytes.
pub proof fn lemma_frames_fit(c: Counters, mtu: int, r: Reliability, channel: u8, data: Seq<u8>)
    requires
        fits(mtu, r, data.len() as int),
    ensures
        forall|i: int|
            0 <= i < frames_of(c, mtu, r, channel, data).len() ==> (#[trigger] frames_of(
                c,
                mtu,
                r,
                channel,
                data,
            )[i]).spec_size() + FRAME_SET_HEADER_SIZE <= mtu,
{
    let fs = frames_of(c, mtu, r, channel, data);
    assert forall|i: int| 0 <= i < fs.len() implies (#[trigger] fs[i]).spec_size()
        + FRAME_SET_HEADER_SIZE <= mtu by {
        if needs_split(mtu, r, data.len() as int) {
            let per = part_len(mtu, upgraded(r));
            lemma_part_body(data, per, i);
        }
    }
}

/// The body of a frame is the whole message, or no longer than a part can be.
pub proof fn lemma_frame_bodies(
    c: Counters,
    mtu: int,
    r: Reliability,
    channel: u8,
    data: Seq<u8>,
    i: int,
)
    requires
        fits(mtu, r, data.len() as int),
        0 <= i < frames_of(c, mtu, r, channel, data).len(),
    ensures
        needs_split(mtu, r, data.len() as int) ==> 0 < frames_of(
            c,
            mtu,
            r,
            channel,
            data,
        )[i].body.len() <= part_len(mtu, upgraded(r)),
        !needs_split(mtu, r, data.len() as int) ==> frames_of(c, mtu, r, channel, data)[i].body
            == data,
{
    if needs_split(mtu, r, data.len() as int) {
        lemma_part_body(data, part_len(mtu, upgraded(r)), i);
    }
}

/// A part has at least one byte and no more than fit.
proof fn lemma_part_body(data: Seq<u8>, per: int, i: int)
    requires
        per > 0,
        0 <= i < part_count(data.len() as int, per),
    ensures
        0 < part_body(data, per, i).len() <= per,
        0 <= i * per < data.len(),
        i + 1 < part_count(data.len() as int, per) ==> (i + 1) * per < data.len(),
        i + 1 == part_count(data.len() as int, per) ==> (i + 1) * per >= data.len(),
{
    let count = part_count(data.len() as int, per);
    lemma_part_count(data.len() as int, per);
    assert((i + 1) * per == i * per + per) by (nonlinear_arith);
    assert(0 <= i * per <= (count - 1) * per) by (nonlinear_arith)
        requires
            0 <= i < count,
            per > 0,
    ;
    if i + 1 < count {
        assert((i + 1) * per <= (count - 1) * per) by (nonlinear_arith)
            requires
                i + 1 < count,
                per > 0,
        ;
    }
}

/// The frames of a message can be told from their bytes. This leaves out messages without a byte,
/// and the sequenced reliabilities, whose frames are sent without the number that their flags
/// announce.
pub proof fn lemma_frames_wf(c: Counters, mtu: int, r: Reliability, channel: u8, data: Seq<u8>)
    requires
        fits(mtu, r, data.len() as int),
        max_len(mtu, r) <= BODY_LIMIT,
        c.reliable.wf(),
        channel < c.order.len(),
        c.order[channel as int].wf(),
        !r.sequenced(),
        data.len() > 0,
    ensures
        forall|i: int|
            0 <= i < frames_of(c, mtu, r, channel, data).len() ==> (#[trigger] frames_of(
                c,
                mtu,
                r,
                channel,
                data,
            )[i]).wf(),
{
    let fs = frames_of(c, mtu, r, channel, data);
    assert forall|i: int| 0 <= i < fs.len() implies (#[trigger] fs[i]).wf() by {
        if needs_split(mtu, r, data.len() as int) {
            let per = part_len(mtu, upgraded(r));
            lemma_part_body(data, per, i);
            lemma_new_flags(upgraded(r), true);
        } else {
            lemma_new_flags(r, false);
        }
    }
}

proof fn lemma_joined(c: Counters, mtu: int, r: Reliability, channel: u8, data: Seq<u8>, n: int)
    requires
        fits(mtu, r, data.len() as int),
        needs_split(mtu, r, data.len() as int),
        0 <= n <= frames_of(c, mtu, r, channel, data).len(),
    ensures
        ({
            let per = part_len(mtu, upgraded(r));
            joined(as_parts(frames_of(c, mtu, r, channel, data)).take(n)) == data.take(
                if n * per <= data.len() {
                    n * per
                } else {
                    data.len() as int
                },
            )
        }),
    decreases n,
{
    let per = part_len(mtu, upgraded(r));
    let ps = as_parts(frames_of(c, mtu, r, channel, data));
    if n == 0 {
        assert(0 * per == 0) by (nonlinear_arith);
        assert(ps.take(0) =~= Seq::empty());
        assert(data.take(0) =~= Seq::empty());
    } else {
        lemma_joined(c, mtu, r, channel, data, n - 1);
        lemma_part_body(data, per, n - 1);
        assert(ps.take(n).drop_last() =~= ps.take(n - 1));
        assert(ps.take(n).last() == ps[n - 1]);
        assert(n * per == (n - 1) * per + per) by (nonlinear_arith);
        assert(data.take((n - 1) * per) + part_body(data, per, n - 1) =~= data.take(
            if n * per <= data.len() {
                n * per
            } else {
                data.len() as int
            },
        ));
    }
}

proof fn lemma_whole_of_parted(r: Reliability)
    ensures
        Flags::of_reliability(r, true).whole() == Flags::of_reliability(r, false),
{
    let code = r.code();
    assert(((code << 5u8) | 4u8 | 16u8) & 0b1110_1111u8 == (code << 5u8) | 4u8 | 0u8)
        by (bit_vector)
        requires
            code <= 7,
    ;
}

/// The parts of a split message make together the frame that the message would have been sent
/// in, had it not been split.
pub proof fn lemma_merged(c: Counters, mtu: int, r: Reliability, channel: u8, data: Seq<u8>)
    requires
        fits(mtu, r, data.len() as int),
        needs_split(mtu, r, data.len() as int),
    ensures
        frames_of(c, mtu, r, channel, data).len() > 1,
        merged(as_parts(frames_of(c, mtu, r, channel, data))) == numbered(
            c,
            upgraded(r),
            channel,
            0,
            None,
            data,
        ),
{
    let per = part_len(mtu, upgraded(r));
    let fs = frames_of(c, mtu, r, channel, data);
    let n = fs.len() as int;
    lemma_part_count(data.len() as int, per);
    if n <= 1 {
        assert(n * per <= per) by (nonlinear_arith)
            requires
                n <= 1,
                per > 0,
        ;
    }
    lemma_joined(c, mtu, r, channel, data, n);
    assert(as_parts(fs).take(n) =~= as_parts(fs));
    assert(data.take(data.len() as int) =~= data);
    lemma_whole_of_parted(upgraded(r));
    assert(n * per >= data.len());
}

/// The frames of a split message are its parts, and make together the frame that the message would
/// have been sent in, had it not been split.
pub proof fn lemma_split_message(
    c: Counters,
    mtu: int,
    r: Reliability,
    channel: u8,
    data: Seq<u8>,
)
    requires
        fits(mtu, r, data.len() as int),
        needs_split(mtu, r, data.len() as int),
    ensures
        frames_of(c, mtu, r, channel, data).len() > 1,
        is_message(frames_of(c, mtu, r, channel, data), c.parted_id),
        assembled(frames_of(c, mtu, r, channel, data)) == numbered(
            c,
            upgraded(r),
            channel,
            0,
            None,
            data,
        ),
{
    let fs = frames_of(c, mtu, r, channel, data);
    lemma_merged(c, mtu, r, channel, data);
    lemma_shuffled(fs, fs, c.parted_id);
    lemma_assembled(fs, c.parted_id);
}

/// A split message is put together again in whatever order its parts arrive, and however they are
/// spread over frame sets: once each part arrived, and none twice, the frame is ready that the
/// message would have been sent in, had it not been split. It counts as arrived with the set that
/// held the last part.
pub proof fn lemma_reassembled_over_sets(
    start: Collected,
    cap: nat,
    limit_size: u32,
    c: Counters,
    mtu: int,
    r: Reliability,
    channel: u8,
    data: Seq<u8>,
    sets: Seq<(u24, Seq<Frame<Seq<u8>>>)>,
)
    requires
        fits(mtu, r, data.len() as int),
        needs_split(mtu, r, data.len() as int),
        limit_size == 0 || frames_of(c, mtu, r, channel, data).len() <= limit_size,
        lookup(start.parts, c.parted_id) is None,
        shuffled(frames_only(arrivals(sets)), frames_of(c, mtu, r, channel, data)),
    ensures
        arrivals(sets).len() > 0,
        sets.len() > 0 && sets.last().1.len() > 0 ==> arrivals(sets).last().0 == sets.last().0,
        collect_sets(start, cap, limit_size, sets) == (
            Collected {
                parts: others(start.parts, cap, c.parted_id),
                ready: start.ready.push(
                    FrameSet {
                        seq_num: arrivals(sets).last().0,
                        set: numbered(c, upgraded(r), channel, 0, None, data),
                    },
                ),
            },
            None::<PartedError>,
        ),
{
    let id = c.parted_id;
    lemma_split_message(c, mtu, r, channel, data);
    lemma_shuffled(frames_only(arrivals(sets)), frames_of(c, mtu, r, channel, data), id);
    lemma_assembled_over_sets(start, cap, limit_size, id, sets);
}

proof fn lemma_advanced_differ(idx: u24, k: int, l: int)
    requires
        0 <= k < U24_RANGE,
        0 <= l < U24_RANGE,
        k != l,
    ensures
        advanced(idx, k) != advanced(idx, l),
{
}

/// No two frames of a split message have the same number: they are numbered on from the first.
pub proof fn lemma_split_numbers(
    c: Counters,
    mtu: int,
    r: Reliability,
    channel: u8,
    data: Seq<u8>,
)
    requires
        needs_split(mtu, r, data.len() as int),
        frames_of(c, mtu, r, channel, data).len() <= U24_RANGE,
    ensures
        numbered_apart(frames_of(c, mtu, r, channel, data)),
        forall|i: int|
            0 <= i < frames_of(c, mtu, r, channel, data).len() ==> (#[trigger] frames_of(
                c,
                mtu,
                r,
                channel,
                data,
            )[i]).reliable_frame_index == Some(advanced(c.reliable, i)),
{
    let fs = frames_of(c, mtu, r, channel, data);
    assert(upgraded(r).reliable());
    assert forall|k: int, l: int| 0 <= k < l < fs.len() implies (
    #[trigger] fs[k]).reliable_frame_index != (#[trigger] fs[l]).reliable_frame_index by {
        lemma_advanced_differ(c.reliable, k, l);
    }
}

/// A message is delivered through all layers that come before the order channels. Whatever
/// numbers arrived before, as long as those of the message did not: once each frame of a split
/// message arrived, in whatever order, as often as it may be and however spread over frame sets,
/// the frame is ready that the message would have been sent in, had it not been split, and it is
/// ready once.
pub proof fn lemma_delivered(
    seen: Set<u24>,
    start: Collected,
    cap: nat,
    limit_size: u32,
    c: Counters,
    mtu: int,
    r: Reliability,
    channel: u8,
    data: Seq<u8>,
    sets: Seq<(u24, Seq<Frame<Seq<u8>>>)>,
)
    requires
        fits(mtu, r, data.len() as int),
        needs_split(mtu, r, data.len() as int),
        frames_of(c, mtu, r, channel, data).len() <= U24_RANGE,
        limit_size == 0 || frames_of(c, mtu, r, channel, data).len() <= limit_size,
        lookup(start.parts, c.parted_id) is None,
        forall|i: int|
            0 <= i < frames_of(c, mtu, r, channel, data).len() ==> frames_only(
                arrivals(sets),
            ).contains(#[trigger] frames_of(c, mtu, r, channel, data)[i]),
        forall|i: int|
            0 <= i < arrivals(sets).len() ==> frames_of(c, mtu, r, channel, data).contains(
                (#[trigger] arrivals(sets)[i]).1,
            ),
        forall|i: int|
            0 <= i < frames_of(c, mtu, r, channel, data).len() ==> !seen.contains(
                #[trigger] advanced(c.reliable, i),
            ),
    ensures
        arrivals(fresh_sets(seen, sets)).len() > 0,
        collect_sets(start, cap, limit_size, fresh_sets(seen, sets)) == (
            Collected {
                parts: others(start.parts, cap, c.parted_id),
                ready: start.ready.push(
                    FrameSet {
                        seq_num: arrivals(fresh_sets(seen, sets)).last().0,
                        set: numbered(c, upgraded(r), channel, 0, None, data),
                    },
                ),
            },
            None::<PartedError>,
        ),
{
    let fs = frames_of(c, mtu, r, channel, data);
    lemma_split_message(c, mtu, r, channel, data);
    lemma_split_numbers(c, mtu, r, channel, data);
    assert(seen.disjoint(numbers_of(fs))) by {
        assert forall|n: u24| numbers_of(fs).contains(n) implies !seen.contains(n) by {
            let k = choose|k: int|
                0 <= k < fs.len() && (#[trigger] fs[k]).reliable_frame_index == Some(n);
            assert(!seen.contains(advanced(c.reliable, k)));
        }
    }
    lemma_assembled_once(seen, start, cap, limit_size, c.parted_id, fs, sets);
}

/// A message that is not split is delivered as it is sent, as long as its number did not arrive
/// before.
pub proof fn lemma_delivered_whole(
    seen: Set<u24>,
    start: Collected,
    cap: nat,
    limit_size: u32,
    seq_num: u24,
    c: Counters,
    mtu: int,
    r: Reliability,
    channel: u8,
    data: Seq<u8>,
)
    requires
        !needs_split(mtu, r, data.len() as int),
        !seen.contains(advanced(c.reliable, 0)),
    ensures
        fresh_frames(seen, frames_of(c, mtu, r, channel, data)) == frames_of(
            c,
            mtu,
            r,
            channel,
            data,
        ),
        collect_all(start, cap, limit_size, seq_num, frames_of(c, mtu, r, channel, data)) == (
            Collected {
                ready: start.ready.push(
                    FrameSet { seq_num, set: numbered(c, r, channel, 0, None, data) },
                ),
                ..start
            },
            None::<PartedError>,
        ),
{
    let fs = frames_of(c, mtu, r, channel, data);
    lemma_all_fresh(seen, fs);
    reveal_with_fuel(collect_all, 2);
    assert(fs.drop_last() =~= Seq::empty());
}

/// The frames of a message survive the trip over the wire: a datagram with some of them is read
/// as what was written.
pub proof fn lemma_frames_on_wire(
    c: Counters,
    mtu: int,
    r: Reliability,
    channel: u8,
    data: Seq<u8>,
    seq_num: u24,
    fs: Seq<Frame<Seq<u8>>>,
)
    requires
        fits(mtu, r, data.len() as int),
        max_len(mtu, r) < BODY_LIMIT,
        c.reliable.wf(),
        channel < c.order.len(),
        c.order[channel as int].wf(),
        !r.sequenced(),
        data.len() > 0,
        seq_num.wf(),
        fs.len() > 0,
        forall|i: int|
            0 <= i < fs.len() ==> frames_of(c, mtu, r, channel, data).contains(#[trigger] fs[i]),
    ensures
        ({
            let p = PacketView::Connected(connected::PacketView::FrameSet(seq_num, fs));
            parse_packet(p.bytes()) == Ok::<(Option<PacketView>, int), CodecError>(
                (Some(p), p.bytes().len() as int),
            )
        }),
{
    let all = frames_of(c, mtu, r, channel, data);
    lemma_frames_wf(c, mtu, r, channel, data);
    assert forall|i: int| 0 <= i < fs.len() implies (#[trigger] fs[i]).wf() && fs[i].body.len()
        < BODY_LIMIT by {
        assert(all.contains(fs[i]));
        let k = choose|k: int| 0 <= k < all.len() && all[k] == fs[i];
        assert(all[k].wf());
        if needs_split(mtu, r, data.len() as int) {
            lemma_part_body(data, part_len(mtu, upgraded(r)), k);
        }
    }
    lemma_packet_roundtrip(
        PacketView::Connected(connected::PacketView::FrameSet(seq_num, fs)),
    );
}

} // verus!
