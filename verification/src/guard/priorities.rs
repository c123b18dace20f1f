//! What priorities mean: which of the frames that wait go into the next packet.
use bytes::Bytes;
use vstd::prelude::*;

use crate::guard::send_buffer::{
    bare, fit_count, lemma_fit, penalty_sum, raised, total_size, PenaltyFrame, Waiting,
};
use crate::packet::connected::frame::{lemma_frame_len, Frame};
use crate::packet::connected::frame_set::FRAME_SET_HEADER_SIZE;
use crate::sorted_queue::{insert_sorted, lemma_slot, slot, sorted, Keyed};

verus! {

/// The frames of a packet, told apart by the queue they come from: how many were taken of each, as
/// what is left tells.
pub open spec fn taken_of_each(w: Waiting, rest: Waiting) -> (int, int, int, int) {
    (
        w.resend.len() - rest.resend.len(),
        w.high.len() - rest.high.len(),
        w.medium.len() - rest.medium.len(),
        w.low.len() - rest.low.len(),
    )
}

proof fn lemma_next_does_not_fit(fs: Seq<Frame<Bytes>>, room: int)
    requires
        room >= 0,
    ensures
        0 <= fit_count(fs, room) <= fs.len(),
        total_size(fs.take(fit_count(fs, room))) <= room,
        fit_count(fs, room) < fs.len() ==> total_size(fs.take(fit_count(fs, room)))
            + fs[fit_count(fs, room)]@.spec_size() > room,
{
    let n = fit_count(fs, room);
    lemma_fit(fs, room);
    if n < fs.len() {
        assert(fs.take(n + 1).drop_last() =~= fs.take(n));
    }
}

/// Higher priorities go first. A packet holds the first of the frames that are sent again, then
/// the first of high, of medium and of low priority, in this order, and the others still wait. A
/// frame is left waiting only where it does not fit behind the packet's frames of its own and of
/// higher priorities alone: frames of lower priority take no room from it.
pub proof fn lemma_higher_first(w: Waiting, mtu: int)
    requires
        mtu >= FRAME_SET_HEADER_SIZE,
    ensures
        ({
            let rest = w.after_packet(mtu);
            let (a, b, c, d) = taken_of_each(w, rest);
            let again = bare(w.resend).take(a);
            let high = bare(w.high).take(b);
            let medium = w.medium.take(c);
            let low = bare(w.low).take(d);
            let first = FRAME_SET_HEADER_SIZE + total_size(again);
            let second = first + total_size(high);
            let third = second + total_size(medium);
            &&& 0 <= a && 0 <= b && 0 <= c && 0 <= d
            &&& rest.resend == w.resend.skip(a)
            &&& rest.high == w.high.skip(b)
            &&& rest.medium == w.medium.skip(c)
            &&& rest.low == w.low.skip(d)
            &&& w.packet(mtu) == again + high + medium + low
            &&& third + total_size(low) <= mtu
            &&& rest.resend.len() > 0 ==> first + rest.resend[0].frame@.spec_size() > mtu
            &&& rest.high.len() > 0 ==> second + rest.high[0].frame@.spec_size() > mtu
            &&& rest.medium.len() > 0 ==> third + rest.medium[0]@.spec_size() > mtu
            &&& rest.low.len() > 0 ==> third + total_size(low) + rest.low[0].frame@.spec_size()
                > mtu
        }),
{
    let (a, b, c, d) = w.picked(mtu);
    let r0 = mtu - FRAME_SET_HEADER_SIZE;
    let r1 = r0 - total_size(bare(w.resend).take(a));
    let r2 = r1 - total_size(bare(w.high).take(b));
    let r3 = r2 - total_size(w.medium.take(c));
    lemma_next_does_not_fit(bare(w.resend), r0);
    lemma_next_does_not_fit(bare(w.high), r1);
    lemma_next_does_not_fit(w.medium, r2);
    lemma_next_does_not_fit(bare(w.low), r3);
}

/// What is taken of a priority depends on the frames of that and of higher priorities alone.
pub proof fn lemma_lower_have_no_say(w: Waiting, v: Waiting, mtu: int)
    requires
        mtu >= FRAME_SET_HEADER_SIZE,
    ensures
        w.resend == v.resend ==> w.after_packet(mtu).resend == v.after_packet(mtu).resend,
        w.resend == v.resend && w.high == v.high ==> w.after_packet(mtu).high == v.after_packet(
            mtu,
        ).high,
        w.resend == v.resend && w.high == v.high && w.medium == v.medium ==> w.after_packet(
            mtu,
        ).medium == v.after_packet(mtu).medium,
{
}

/// A frame that is put at its place stands behind all of its own or a lesser penalty, the first
/// come first, and before all of a greater one; the others stay in their order.
pub proof fn lemma_penalty_order(s: Seq<PenaltyFrame>, x: PenaltyFrame)
    requires
        sorted(s),
    ensures
        exists|at: int|
            0 <= at <= s.len() && #[trigger] insert_sorted(s, x) == s.take(at).push(x) + s.skip(at)
                && (forall|i: int| 0 <= i < at ==> (#[trigger] s[i]).penalty <= x.penalty) && (
            forall|i: int| at <= i < s.len() ==> (#[trigger] s[i]).penalty > x.penalty),
{
    let at = slot(s, x.spec_key());
    lemma_slot(s, x.spec_key());
    assert(insert_sorted(s, x) =~= s.take(at).push(x) + s.skip(at));
    assert forall|i: int| 0 <= i < at implies (#[trigger] s[i]).penalty <= x.penalty by {
        assert(s[i].spec_key() <= x.spec_key());
    }
    assert forall|i: int| at <= i < s.len() implies (#[trigger] s[i]).penalty > x.penalty by {
        assert(x.spec_key() < s[i].spec_key());
    }
}

/// The penalty of a packet. Where all its frames are sent again, it is the mean of their penalties,
/// rounded down, those that were in the packet before counted with none; where some frame is sent
/// for the first time, or there is none, it is 0.
pub proof fn lemma_packet_penalty(w: Waiting, mtu: int, before: int)
    requires
        mtu >= FRAME_SET_HEADER_SIZE,
        before >= 0,
    ensures
        ({
            let rest = w.after_packet(mtu);
            let (a, b, c, d) = taken_of_each(w, rest);
            let penalty = w.packet_penalty(mtu, before);
            let sum = penalty_sum(w.resend.take(a)) as int;
            let n = before + a;
            &&& b + c + d > 0 || n == 0 ==> penalty == 0
            &&& b + c + d == 0 && n > 0 ==> penalty * n <= sum < (penalty + 1) * n
        }),
{
    let (a, b, c, d) = w.picked(mtu);
    lemma_higher_first(w, mtu);
    assert(taken_of_each(w, w.after_packet(mtu)) == (a, b, c, d)) by {
        let r0 = mtu - FRAME_SET_HEADER_SIZE;
        let r1 = r0 - total_size(bare(w.resend).take(a));
        let r2 = r1 - total_size(bare(w.high).take(b));
        let r3 = r2 - total_size(w.medium.take(c));
        lemma_fit(bare(w.resend), r0);
        lemma_fit(bare(w.high), r1);
        lemma_fit(w.medium, r2);
        lemma_fit(bare(w.low), r3);
    }
    let n = before + a;
    if b + c + d == 0 && n > 0 {
        let sum = penalty_sum(w.resend.take(a)) as int;
        let mean = sum / n;
        assert(mean * n <= sum < (mean + 1) * n) by (nonlinear_arith)
            requires
                n > 0,
                mean == sum / n,
        ;
    }
}

/// A frame that is sent again gets a greater penalty, by 1, up to the greatest there is.
pub proof fn lemma_raised(penalty: u8)
    ensures
        penalty < 255 ==> raised(penalty) == penalty + 1,
        penalty == 255 ==> raised(penalty) == 255,
{
}

/// The penalties of frames add up: those of one frame are its own, and those of two runs of frames
/// together are those of each.
pub proof fn lemma_penalties_add(a: Seq<PenaltyFrame>, b: Seq<PenaltyFrame>)
    ensures
        penalty_sum(a + b) == penalty_sum(a) + penalty_sum(b),
        b.len() == 0 ==> penalty_sum(b) == 0,
        b.len() == 1 ==> penalty_sum(b) == b[0].penalty,
    decreases b.len(),
{
    if b.len() == 0 {
        assert(a + b =~= a);
    } else {
        lemma_penalties_add(a, b.drop_last());
        assert((a + b).drop_last() =~= a + b.drop_last());
    }
}

/// The bytes of frames add up: one frame takes as many as it is written in, and two runs of frames
/// together take those of each.
pub proof fn lemma_sizes_add(a: Seq<Frame<Bytes>>, b: Seq<Frame<Bytes>>)
    ensures
        total_size(a + b) == total_size(a) + total_size(b),
        b.len() == 0 ==> total_size(b) == 0,
        b.len() == 1 && b[0]@.wf() ==> total_size(b) == b[0]@.bytes().len(),
    decreases b.len(),
{
    if b.len() == 0 {
        assert(a + b =~= a);
    } else {
        lemma_sizes_add(a, b.drop_last());
        assert((a + b).drop_last() =~= a + b.drop_last());
        if b.len() == 1 && b[0]@.wf() {
            lemma_frame_len(b[0]@);
        }
    }
}

} // verus!
