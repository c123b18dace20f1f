//! What passes the layers that frames go through when they arrive, what is held back, and in
//! which order it comes out.
use vstd::prelude::*;

use crate::codec::decoder::dedup::{fresh_frames, numbers_seen};
use crate::codec::decoder::fragment::{
    accepted, collect_all, collect_all_once, collect_once, collect_one, gathered, gathered_once,
    waiting_parts, with_parts, Collected, DeFragment,
};
use crate::codec::decoder::ordered::{channels_wf, drained, ordered_all, ChannelView};
use crate::codec::decoder::parts::{joined, lookup, merged, others, without, FramePart};
use crate::errors::{CodecError, PartedError};
use crate::packet::connected::frame::{Fragment, Frame, Ordered};
use crate::packet::connected::frame_set::FrameSet;
use crate::sorted_queue::{insert_sorted, lemma_gains, lemma_insert_sorted, sorted};
use crate::uint24::{number_range, u24, U24_RANGE};

verus! {

/// Tells the frames that are not ordered.
pub open spec fn unordered<B>() -> spec_fn(Frame<B>) -> bool {
    |f: Frame<B>| f.ordered is None
}

/// Tells the frames of an order channel.
pub open spec fn of_channel<B>(c: int) -> spec_fn(Frame<B>) -> bool {
    |f: Frame<B>| f.ordered matches Some(o) && o.channel == c
}

/// Every place in the order fits in 24 bits.
pub open spec fn places_wf<B>(fs: Seq<Frame<B>>) -> bool {
    forall|i: int|
        0 <= i < fs.len() ==> ((#[trigger] fs[i]).ordered matches Some(o) ==> o.frame_index.wf())
}

/// One of the frames has the place `i` on the channel `c`.
pub open spec fn comes_in<B>(fs: Seq<Frame<B>>, c: int, i: u32) -> bool {
    exists|j: int|
        0 <= j < fs.len() && (#[trigger] fs[j]).ordered == Some(
            Ordered { frame_index: u24(i), channel: c as u8 },
        )
}

proof fn lemma_filter_push<A>(s: Seq<A>, x: A, p: spec_fn(A) -> bool)
    ensures
        s.push(x).filter(p) == (if p(x) {
            s.filter(p).push(x)
        } else {
            s.filter(p)
        }),
{
    reveal(Seq::filter);
    assert(s.push(x).drop_last() =~= s);
}

/// A channel passes on the frames from the next one on, one after the other, up to the first that
/// is not there.
proof fn lemma_drained<B>(ch: ChannelView<B>, out: Seq<Frame<B>>, c: int)
    requires
        ch.wf(c),
        0 <= c <= u8::MAX,
    ensures
        ({
            let (after, frames) = drained(ch, out);
            let n = after.read - ch.read;
            &&& after.wf(c)
            &&& n >= 0
            &&& frames.len() == out.len() + n
            &&& frames.take(out.len() as int) == out
            &&& forall|k: int|
                0 <= k < n ==> {
                    &&& ch.held.contains_key((ch.read + k) as u32)
                    &&& (#[trigger] frames[out.len() + k]) == ch.held[(ch.read + k) as u32].set
                    &&& frames[out.len() + k].ordered == Some(
                        Ordered { frame_index: u24((ch.read + k) as u32), channel: c as u8 },
                    )
                }
            &&& !after.due()
            &&& after.arrived() == ch.arrived()
        }),
    decreases U24_RANGE - ch.read,
{
    if ch.due() && ch.read < U24_RANGE {
        let next = ch.passed_on();
        let longer = out.push(ch.held[ch.read].set);
        lemma_drained(next, longer, c);
        let (after, frames) = drained(ch, out);
        assert(next.arrived() =~= ch.arrived());
        assert(frames.take(out.len() as int) =~= out) by {
            assert forall|i: int| 0 <= i < out.len() implies frames[i] == out[i] by {
                assert(frames.take(longer.len() as int)[i] == longer[i]);
            }
        }
        assert forall|k: int| 0 <= k < after.read - ch.read implies {
            &&& ch.held.contains_key((ch.read + k) as u32)
            &&& (#[trigger] frames[out.len() + k]) == ch.held[(ch.read + k) as u32].set
            &&& frames[out.len() + k].ordered == Some(
                Ordered { frame_index: u24((ch.read + k) as u32), channel: c as u8 },
            )
        } by {
            if k == 0 {
                assert(frames.take(longer.len() as int)[out.len() as int] == longer[out.len() as int]);
            } else {
                assert(frames[longer.len() + (k - 1)] == next.held[(next.read + (k - 1)) as u32].set);
            }
        }
    } else {
        assert(out.take(out.len() as int) =~= out);
    }
}

proof fn lemma_ordered_wf<B>(channels: Seq<ChannelView<B>>, seq_num: u24, fs: Seq<Frame<B>>)
    requires
        channels_wf(channels),
        places_wf(fs),
    ensures
        channels_wf(ordered_all(channels, seq_num, fs).0),
        ordered_all(channels, seq_num, fs).0.len() == channels.len(),
    decreases fs.len(),
{
    if fs.len() > 0 {
        let init = fs.drop_last();
        let f = fs.last();
        lemma_ordered_wf(channels, seq_num, init);
        let (here, out, e) = ordered_all(channels, seq_num, init);
        if e is None {
            if let Some(Ordered { frame_index, channel }) = f.ordered {
                let c = channel as int;
                if c < channels.len() {
                    assert(fs[fs.len() - 1].ordered == f.ordered);
                    assert(here[c].wf(c));
                    let ch = here[c].with_frame(frame_index.0, FrameSet { seq_num, set: f });
                    assert(ch.wf(c));
                    lemma_drained(ch, out, c);
                    let after = ordered_all(channels, seq_num, fs).0;
                    assert forall|k: int| 0 <= k < after.len() implies (#[trigger] after[k]).wf(
                        k,
                    ) by {
                        assert(here[k].wf(k));
                    }
                }
            }
        }
    }
}

proof fn lemma_filter_tail<B>(out: Seq<Frame<B>>, frames: Seq<Frame<B>>, p: spec_fn(Frame<B>) -> bool)
    requires
        out.len() <= frames.len(),
        frames.take(out.len() as int) == out,
    ensures
        frames.filter(p) == out.filter(p) + frames.skip(out.len() as int).filter(p),
{
    assert(frames =~= out + frames.skip(out.len() as int));
    Seq::filter_distributes_over_add(out, frames.skip(out.len() as int), p);
}

proof fn lemma_filter_none<A>(s: Seq<A>, p: spec_fn(A) -> bool)
    requires
        forall|i: int| 0 <= i < s.len() ==> !p(#[trigger] s[i]),
    ensures
        s.filter(p) == Seq::<A>::empty(),
    decreases s.len(),
{
    reveal(Seq::filter);
    if s.len() > 0 {
        assert(!p(s[s.len() - 1]));
        lemma_filter_none(s.drop_last(), p);
    }
}

proof fn lemma_filter_every<A>(s: Seq<A>, p: spec_fn(A) -> bool)
    requires
        forall|i: int| 0 <= i < s.len() ==> p(#[trigger] s[i]),
    ensures
        s.filter(p) == s,
    decreases s.len(),
{
    reveal(Seq::filter);
    if s.len() > 0 {
        assert(p(s[s.len() - 1]));
        lemma_filter_every(s.drop_last(), p);
        assert(s.drop_last().push(s.last()) =~= s);
    }
}

/// Frames that are not ordered are passed on at once: of a set in which no frame is refused they
/// all come out, each once, and in the order they stand in.
pub proof fn lemma_unordered_pass<B>(
    channels: Seq<ChannelView<B>>,
    seq_num: u24,
    fs: Seq<Frame<B>>,
)
    requires
        channels_wf(channels),
        places_wf(fs),
        ordered_all(channels, seq_num, fs).2 is None,
    ensures
        ordered_all(channels, seq_num, fs).1.filter(unordered()) == fs.filter(unordered()),
    decreases fs.len(),
{
    let p = unordered::<B>();
    reveal(Seq::filter);
    if fs.len() > 0 {
        let init = fs.drop_last();
        let f = fs.last();
        lemma_unordered_pass(channels, seq_num, init);
        lemma_ordered_wf(channels, seq_num, init);
        let (here, out, e) = ordered_all(channels, seq_num, init);
        match f.ordered {
            None => {
                lemma_filter_push(out, f, p);
            },
            Some(Ordered { frame_index, channel }) => {
                let c = channel as int;
                assert(fs[fs.len() - 1].ordered == f.ordered);
                assert(here[c].wf(c));
                let ch = here[c].with_frame(frame_index.0, FrameSet { seq_num, set: f });
                assert(ch.wf(c));
                lemma_drained(ch, out, c);
                let frames = drained(ch, out).1;
                lemma_filter_tail(out, frames, p);
                let tail = frames.skip(out.len() as int);
                assert forall|i: int| 0 <= i < tail.len() implies !p(#[trigger] tail[i]) by {
                    assert(tail[i] == frames[out.len() + i]);
                }
                lemma_filter_none(tail, p);
                assert(out.filter(p) + Seq::<Frame<B>>::empty() =~= out.filter(p));
            },
        }
    }
}

/// The frames of an order channel come out in the order of their places, without a gap: those that
/// a set brings out have the places from the one that was due on, up to the one that is due next.
pub proof fn lemma_channel_in_order<B>(
    channels: Seq<ChannelView<B>>,
    seq_num: u24,
    fs: Seq<Frame<B>>,
    c: int,
)
    requires
        channels_wf(channels),
        places_wf(fs),
        0 <= c < channels.len(),
        ordered_all(channels, seq_num, fs).2 is None,
    ensures
        ({
            let (after, out, _) = ordered_all(channels, seq_num, fs);
            let mine = out.filter(of_channel(c));
            &&& after.len() == channels.len()
            &&& mine.len() == after[c].read - channels[c].read
            &&& forall|k: int|
                0 <= k < mine.len() ==> (#[trigger] mine[k]).ordered == Some(
                    Ordered { frame_index: u24((channels[c].read + k) as u32), channel: c as u8 },
                )
        }),
    decreases fs.len(),
{
    let p = of_channel::<B>(c);
    reveal(Seq::filter);
    if fs.len() > 0 {
        let init = fs.drop_last();
        let f = fs.last();
        lemma_channel_in_order(channels, seq_num, init, c);
        lemma_ordered_wf(channels, seq_num, init);
        let (here, out, e) = ordered_all(channels, seq_num, init);
        match f.ordered {
            None => {
                lemma_filter_push(out, f, p);
            },
            Some(Ordered { frame_index, channel }) => {
                let d = channel as int;
                assert(fs[fs.len() - 1].ordered == f.ordered);
                assert(here[d].wf(d));
                let ch = here[d].with_frame(frame_index.0, FrameSet { seq_num, set: f });
                assert(ch.wf(d));
                lemma_drained(ch, out, d);
                let frames = drained(ch, out).1;
                lemma_filter_tail(out, frames, p);
                let tail = frames.skip(out.len() as int);
                if d == c {
                    assert forall|i: int| 0 <= i < tail.len() implies p(#[trigger] tail[i]) by {
                        assert(tail[i] == frames[out.len() + i]);
                    }
                    lemma_filter_every(tail, p);
                    let mine = frames.filter(p);
                    let earlier = out.filter(p);
                    assert forall|k: int| 0 <= k < mine.len() implies (
                    #[trigger] mine[k]).ordered == Some(
                        Ordered {
                            frame_index: u24((channels[c].read + k) as u32),
                            channel: c as u8,
                        },
                    ) by {
                        if k < earlier.len() {
                            assert(mine[k] == earlier[k]);
                        } else {
                            let i = k - earlier.len();
                            assert(mine[k] == tail[i]);
                            assert(tail[i] == frames[out.len() + i]);
                        }
                    }
                } else {
                    assert forall|i: int| 0 <= i < tail.len() implies !p(#[trigger] tail[i]) by {
                        assert(tail[i] == frames[out.len() + i]);
                    }
                    lemma_filter_none(tail, p);
                    assert(out.filter(p) + Seq::<Frame<B>>::empty() =~= out.filter(p));
                }
            },
        }
    }
}

/// Nothing that arrives on a channel is forgotten and nothing else counts as arrived; and once a
/// set was taken in, the frame that is due next has not arrived.
pub proof fn lemma_channel_arrivals<B>(
    channels: Seq<ChannelView<B>>,
    seq_num: u24,
    fs: Seq<Frame<B>>,
    c: int,
)
    requires
        channels_wf(channels),
        places_wf(fs),
        0 <= c < channels.len(),
        ordered_all(channels, seq_num, fs).2 is None,
    ensures
        ({
            let after = ordered_all(channels, seq_num, fs).0;
            &&& after.len() == channels.len()
            &&& forall|i: u32|
                (#[trigger] after[c].arrived().contains(i)) <==> channels[c].arrived().contains(i)
                    || comes_in(fs, c, i)
            &&& !channels[c].due() ==> !after[c].arrived().contains(after[c].read)
        }),
    decreases fs.len(),
{
    lemma_ordered_wf(channels, seq_num, fs);
    let after = ordered_all(channels, seq_num, fs).0;
    if fs.len() > 0 {
        let init = fs.drop_last();
        let f = fs.last();
        lemma_channel_arrivals(channels, seq_num, init, c);
        lemma_ordered_wf(channels, seq_num, init);
        let (here, out, e) = ordered_all(channels, seq_num, init);
        if let Some(Ordered { frame_index, channel }) = f.ordered {
            let d = channel as int;
            assert(fs[fs.len() - 1].ordered == f.ordered);
            assert(here[d].wf(d));
            let ch = here[d].with_frame(frame_index.0, FrameSet { seq_num, set: f });
            assert(ch.wf(d));
            lemma_drained(ch, out, d);
        }
        assert forall|i: u32|
            (#[trigger] after[c].arrived().contains(i)) <==> channels[c].arrived().contains(i)
                || comes_in(fs, c, i) by {
            assert(here[c].arrived().contains(i) <==> channels[c].arrived().contains(i) || comes_in(
                init,
                c,
                i,
            ));
            let place = Some(Ordered { frame_index: u24(i), channel: c as u8 });
            if comes_in(init, c, i) {
                let j = choose|j: int| 0 <= j < init.len() && (#[trigger] init[j]).ordered == place;
                assert(fs[j].ordered == place);
            }
            if comes_in(fs, c, i) {
                let j = choose|j: int| 0 <= j < fs.len() && (#[trigger] fs[j]).ordered == place;
                if j < init.len() {
                    assert(init[j].ordered == place);
                } else {
                    assert(f.ordered == place);
                }
            }
            if f.ordered == place {
                assert(fs[fs.len() - 1].ordered == place);
            }
        }
    }
}

/// What comes out of the layer came in, now or before: each frame of it is one of the set, or
/// waited on its channel.
pub proof fn lemma_ordered_from<B>(
    channels: Seq<ChannelView<B>>,
    seq_num: u24,
    fs: Seq<Frame<B>>,
)
    requires
        channels_wf(channels),
        places_wf(fs),
    ensures
        ({
            let (after, out, _) = ordered_all(channels, seq_num, fs);
            &&& after.len() == channels.len()
            &&& forall|k: int|
                0 <= k < out.len() ==> fs.contains(#[trigger] out[k]) || exists|c: int, i: u32|
                    0 <= c < channels.len() && #[trigger] channels[c].held.contains_key(i)
                        && channels[c].held[i].set == out[k]
            &&& forall|c: int, i: u32|
                0 <= c < channels.len() && #[trigger] after[c].held.contains_key(i) ==> (
                channels[c].held.contains_key(i) && after[c].held[i] == channels[c].held[i]) || (
                after[c].held[i].seq_num == seq_num && fs.contains(after[c].held[i].set))
        }),
    decreases fs.len(),
{
    lemma_ordered_wf(channels, seq_num, fs);
    if fs.len() > 0 {
        let init = fs.drop_last();
        let f = fs.last();
        lemma_ordered_from(channels, seq_num, init);
        lemma_ordered_wf(channels, seq_num, init);
        let (here, before, e) = ordered_all(channels, seq_num, init);
        let (after, out, _) = ordered_all(channels, seq_num, fs);
        assert(fs[fs.len() - 1] == f);
        assert forall|g: Frame<B>| init.contains(g) implies fs.contains(g) by {
            let j = choose|j: int| 0 <= j < init.len() && init[j] == g;
            assert(fs[j] == g);
        }
        if e is None {
            if let Some(Ordered { frame_index, channel }) = f.ordered {
                let d = channel as int;
                if d < channels.len() {
                    assert(here[d].wf(d));
                    let ch = here[d].with_frame(frame_index.0, FrameSet { seq_num, set: f });
                    assert(ch.wf(d));
                    lemma_drained(ch, before, d);
                    lemma_drained_held(ch, before);
                    assert forall|k: int| 0 <= k < out.len() implies fs.contains(#[trigger] out[k])
                        || exists|c: int, i: u32|
                        0 <= c < channels.len() && #[trigger] channels[c].held.contains_key(i)
                            && channels[c].held[i].set == out[k] by {
                        if k < before.len() {
                            assert(out.take(before.len() as int)[k] == before[k]);
                        } else {
                            let n = k - before.len();
                            let i = (ch.read + n) as u32;
                            assert(out[before.len() + n] == ch.held[i].set);
                            if ch.held[i].set != f {
                                assert(here[d].held.contains_key(i));
                            }
                        }
                    }
                    assert forall|c: int, i: u32|
                        0 <= c < channels.len() && #[trigger] after[c].held.contains_key(i) implies (
                    channels[c].held.contains_key(i) && after[c].held[i] == channels[c].held[i]) || (
                    after[c].held[i].seq_num == seq_num && fs.contains(after[c].held[i].set)) by {
                        if c == d {
                            assert(ch.held.contains_key(i));
                        }
                    }
                }
            }
        }
    }
}

/// What waits on a channel once it was drained waited before.
proof fn lemma_drained_held<B>(ch: ChannelView<B>, out: Seq<Frame<B>>)
    ensures
        forall|i: u32| #[trigger]
            drained(ch, out).0.held.contains_key(i) ==> ch.held.contains_key(i) && drained(
                ch,
                out,
            ).0.held[i] == ch.held[i],
    decreases U24_RANGE - ch.read,
{
    if ch.due() && ch.read < U24_RANGE {
        let next = ch.passed_on();
        let longer = out.push(ch.held[ch.read].set);
        lemma_drained_held(next, longer);
        assert(drained(ch, out) == drained(next, longer));
        assert forall|i: u32| #[trigger] drained(ch, out).0.held.contains_key(i) implies ch.held.contains_key(
            i,
        ) && drained(ch, out).0.held[i] == ch.held[i] by {
            assert(drained(next, longer).0.held.contains_key(i));
            assert(next.held.contains_key(i));
        }
    }
}

/// A set is refused just where one of its frames names a channel that there is not, and the error
/// names the first such channel and how many there are.
pub proof fn lemma_order_refuses<B>(
    channels: Seq<ChannelView<B>>,
    seq_num: u24,
    fs: Seq<Frame<B>>,
)
    requires
        channels_wf(channels),
        places_wf(fs),
    ensures
        match ordered_all(channels, seq_num, fs).2 {
            None => forall|j: int|
                0 <= j < fs.len() ==> ((#[trigger] fs[j]).ordered matches Some(o) ==> o.channel
                    < channels.len()),
            Some(e) => exists|j: int|
                {
                    &&& 0 <= j < fs.len()
                    &&& (#[trigger] fs[j]).ordered matches Some(o) && o.channel >= channels.len()
                        && e.channel == o.channel && e.max_channels == channels.len()
                    &&& forall|i: int|
                        0 <= i < j ==> ((#[trigger] fs[i]).ordered matches Some(o) ==> o.channel
                            < channels.len())
                },
        },
    decreases fs.len(),
{
    if fs.len() > 0 {
        let init = fs.drop_last();
        lemma_order_refuses(channels, seq_num, init);
        lemma_ordered_wf(channels, seq_num, init);
        let last = fs.len() - 1;
        assert(fs[last] == fs.last());
        assert forall|j: int| 0 <= j < init.len() implies fs[j] == #[trigger] init[j] by {}
        match ordered_all(channels, seq_num, init).2 {
            Some(e) => {
                let j = choose|j: int|
                    {
                        &&& 0 <= j < init.len()
                        &&& (#[trigger] init[j]).ordered matches Some(o) && o.channel
                            >= channels.len() && e.channel == o.channel && e.max_channels
                            == channels.len()
                        &&& forall|i: int|
                            0 <= i < j ==> ((#[trigger] init[i]).ordered matches Some(o)
                                ==> o.channel < channels.len())
                    };
                assert(fs[j] == init[j]);
                assert forall|i: int| 0 <= i < j implies ((#[trigger] fs[i]).ordered matches Some(o)
                    ==> o.channel < channels.len()) by {
                    assert(fs[i] == init[i]);
                }
            },
            None => {
                assert forall|j: int| 0 <= j < init.len() implies ((
                #[trigger] fs[j]).ordered matches Some(o) ==> o.channel < channels.len()) by {
                    assert(fs[j] == init[j]);
                }
            },
        }
    }
}

/// How a set is taken in, frame by frame: `ends[i]` frames are ready once the first `i` were. A
/// frame that is no part is ready at once, as it is, behind those that were ready before; a part
/// makes at most one frame ready.
pub open spec fn taken_in_turn(
    before: Seq<FrameSet<Frame<Seq<u8>>>>,
    after: Seq<FrameSet<Frame<Seq<u8>>>>,
    seq_num: u24,
    fs: Seq<Frame<Seq<u8>>>,
    ends: Seq<int>,
) -> bool {
    &&& ends.len() == fs.len() + 1
    &&& ends[0] == before.len()
    &&& ends.last() == after.len()
    &&& before.len() <= after.len()
    &&& after.take(before.len() as int) == before
    &&& forall|i: int|
        0 <= i < fs.len() ==> {
            let f = #[trigger] fs[i];
            &&& before.len() <= ends[i] <= ends[i + 1] <= after.len()
            &&& f.fragment is None ==> ends[i + 1] == ends[i] + 1
                && after[ends[i]] == (FrameSet { seq_num, set: f })
            &&& f.fragment is Some ==> ends[i + 1] <= ends[i] + 1
        }
}

proof fn lemma_one_more_turn(
    before: Seq<FrameSet<Frame<Seq<u8>>>>,
    mid: Seq<FrameSet<Frame<Seq<u8>>>>,
    after: Seq<FrameSet<Frame<Seq<u8>>>>,
    seq_num: u24,
    fs: Seq<Frame<Seq<u8>>>,
    ends: Seq<int>,
)
    requires
        fs.len() > 0,
        taken_in_turn(before, mid, seq_num, fs.drop_last(), ends),
        mid.len() <= after.len() <= mid.len() + 1,
        after.take(mid.len() as int) == mid,
        fs.last().fragment is None ==> after == mid.push(FrameSet { seq_num, set: fs.last() }),
    ensures
        taken_in_turn(before, after, seq_num, fs, ends.push(after.len() as int)),
{
    let init = fs.drop_last();
    let all = ends.push(after.len() as int);
    assert(after.take(before.len() as int) =~= mid.take(before.len() as int));
    assert forall|i: int| 0 <= i < fs.len() implies {
        let f = #[trigger] fs[i];
        &&& before.len() <= all[i] <= all[i + 1] <= after.len()
        &&& f.fragment is None ==> all[i + 1] == all[i] + 1 && after[all[i]] == (FrameSet {
            seq_num,
            set: f,
        })
        &&& f.fragment is Some ==> all[i + 1] <= all[i] + 1
    } by {
        if i < init.len() {
            assert(init[i] == fs[i]);
            if fs[i].fragment is None {
                assert(after.take(mid.len() as int)[ends[i]] == mid[ends[i]]);
            }
        } else {
            assert(all[i] == ends.last());
        }
    }
}

/// Where no frame of a set is refused, the frames that are no parts all come out, unchanged and in
/// the order they stand in, each in its turn.
pub proof fn lemma_plain_frames_pass(
    c: Collected,
    cap: nat,
    limit_size: u32,
    seq_num: u24,
    fs: Seq<Frame<Seq<u8>>>,
)
    requires
        collect_all(c, cap, limit_size, seq_num, fs).1 is None,
    ensures
        exists|ends: Seq<int>| #[trigger]
            taken_in_turn(
                c.ready,
                collect_all(c, cap, limit_size, seq_num, fs).0.ready,
                seq_num,
                fs,
                ends,
            ),
    decreases fs.len(),
{
    let after = collect_all(c, cap, limit_size, seq_num, fs).0.ready;
    if fs.len() == 0 {
        assert(after.take(after.len() as int) =~= after);
        assert(taken_in_turn(c.ready, after, seq_num, fs, seq![after.len() as int]));
    } else {
        let init = fs.drop_last();
        lemma_plain_frames_pass(c, cap, limit_size, seq_num, init);
        let mid = collect_all(c, cap, limit_size, seq_num, init).0.ready;
        let ends = choose|ends: Seq<int>| #[trigger]
            taken_in_turn(c.ready, mid, seq_num, init, ends);
        assert(after.take(mid.len() as int) =~= mid);
        lemma_one_more_turn(c.ready, mid, after, seq_num, fs, ends);
    }
}

/// The same, where a part that waits already does not count again.
pub proof fn lemma_plain_frames_pass_once(
    c: Collected,
    cap: nat,
    limit_size: u32,
    seq_num: u24,
    fs: Seq<Frame<Seq<u8>>>,
)
    requires
        collect_all_once(c, cap, limit_size, seq_num, fs).1 is None,
    ensures
        exists|ends: Seq<int>| #[trigger]
            taken_in_turn(
                c.ready,
                collect_all_once(c, cap, limit_size, seq_num, fs).0.ready,
                seq_num,
                fs,
                ends,
            ),
    decreases fs.len(),
{
    let after = collect_all_once(c, cap, limit_size, seq_num, fs).0.ready;
    if fs.len() == 0 {
        assert(after.take(after.len() as int) =~= after);
        assert(taken_in_turn(c.ready, after, seq_num, fs, seq![after.len() as int]));
    } else {
        let init = fs.drop_last();
        lemma_plain_frames_pass_once(c, cap, limit_size, seq_num, init);
        let mid = collect_all_once(c, cap, limit_size, seq_num, init).0.ready;
        let ends = choose|ends: Seq<int>| #[trigger]
            taken_in_turn(c.ready, mid, seq_num, init, ends);
        assert(after.take(mid.len() as int) =~= mid);
        lemma_one_more_turn(c.ready, mid, after, seq_num, fs, ends);
    }
}

/// A set in which no frame is a part goes through as it is: the parts that wait stay as they are,
/// and what is ready is what was, followed by exactly the frames of the set.
pub proof fn lemma_no_parts(
    c: Collected,
    cap: nat,
    limit_size: u32,
    seq_num: u24,
    fs: Seq<Frame<Seq<u8>>>,
)
    requires
        forall|i: int| 0 <= i < fs.len() ==> (#[trigger] fs[i]).fragment is None,
    ensures
        ({
            let all = Collected {
                parts: c.parts,
                ready: c.ready + Seq::new(fs.len(), |i: int| FrameSet { seq_num, set: fs[i] }),
            };
            &&& collect_all(c, cap, limit_size, seq_num, fs) == (all, None::<PartedError>)
            &&& collect_all_once(c, cap, limit_size, seq_num, fs) == (all, None::<PartedError>)
        }),
    decreases fs.len(),
{
    let sets = Seq::new(fs.len(), |i: int| FrameSet { seq_num, set: fs[i] });
    if fs.len() == 0 {
        assert(c.ready + sets =~= c.ready);
    } else {
        let init = fs.drop_last();
        assert forall|i: int| 0 <= i < init.len() implies (#[trigger] init[i]).fragment is None by {
            assert(fs[i].fragment is None);
        }
        lemma_no_parts(c, cap, limit_size, seq_num, init);
        let earlier = Seq::new(init.len(), |i: int| FrameSet { seq_num, set: init[i] });
        assert(fs[fs.len() - 1].fragment is None);
        assert((c.ready + earlier).push(FrameSet { seq_num, set: fs.last() }) =~= c.ready + sets);
    }
}

/// The part cannot be taken: its place lies outside of its message, or the message has too many
/// parts. A limit of 0 stands for none.
pub open spec fn unfit(f: Frame<Seq<u8>>, limit_size: u32) -> bool {
    f.fragment matches Some(p) && (p.parted_index >= p.parted_size || 0 < limit_size
        < p.parted_size)
}

/// What is said of a part that cannot be taken: that its place lies outside, where it does, else
/// that its message has too many parts.
pub open spec fn blamed(e: PartedError, f: Frame<Seq<u8>>, limit_size: u32) -> bool {
    &&& f.fragment is Some
    &&& match e {
        PartedError::IndexOutOfRange { parted_index, parted_size } => {
            &&& parted_index == f.fragment->0.parted_index
            &&& parted_size == f.fragment->0.parted_size
            &&& parted_index >= parted_size
        },
        PartedError::SizeExceeded { parted_size, limit_size: limit } => {
            &&& parted_size == f.fragment->0.parted_size
            &&& f.fragment->0.parted_index < parted_size
            &&& limit == limit_size
            &&& 0 < limit < parted_size
        },
    }
}

/// A set is refused just where it holds a part that cannot be taken, and the error is about the
/// first such part.
pub proof fn lemma_parts_refused(
    c: Collected,
    cap: nat,
    limit_size: u32,
    seq_num: u24,
    fs: Seq<Frame<Seq<u8>>>,
)
    ensures
        match collect_all(c, cap, limit_size, seq_num, fs).1 {
            None => forall|i: int| 0 <= i < fs.len() ==> !unfit(#[trigger] fs[i], limit_size),
            Some(e) => exists|j: int|
                {
                    &&& 0 <= j < fs.len()
                    &&& blamed(e, #[trigger] fs[j], limit_size)
                    &&& forall|i: int| 0 <= i < j ==> !unfit(#[trigger] fs[i], limit_size)
                },
        },
        collect_all_once(c, cap, limit_size, seq_num, fs).1 == collect_all(
            c,
            cap,
            limit_size,
            seq_num,
            fs,
        ).1,
    decreases fs.len(),
{
    if fs.len() > 0 {
        let init = fs.drop_last();
        lemma_parts_refused(c, cap, limit_size, seq_num, init);
        let last = fs.len() - 1;
        assert(fs[last] == fs.last());
        match collect_all(c, cap, limit_size, seq_num, init).1 {
            Some(e) => {
                let j = choose|j: int|
                    {
                        &&& 0 <= j < init.len()
                        &&& blamed(e, #[trigger] init[j], limit_size)
                        &&& forall|i: int| 0 <= i < j ==> !unfit(#[trigger] init[i], limit_size)
                    };
                assert(blamed(e, fs[j], limit_size));
                assert forall|i: int| 0 <= i < j implies !unfit(#[trigger] fs[i], limit_size) by {
                    assert(fs[i] == init[i]);
                }
            },
            None => {
                assert forall|i: int| 0 <= i < init.len() implies !unfit(
                    #[trigger] fs[i],
                    limit_size,
                ) by {
                    assert(fs[i] == init[i]);
                }
            },
        }
    }
}

/// A frame passes where it has no number, or where its number did not arrive before, neither in
/// an earlier set nor in an earlier frame of this one.
pub open spec fn is_new(seen: Set<u24>, fs: Seq<Frame<Seq<u8>>>, i: int) -> bool {
    fs[i].reliable_frame_index matches Some(n) ==> !seen.contains(n) && forall|j: int|
        0 <= j < i ==> (#[trigger] fs[j]).reliable_frame_index != Some(n)
}

/// `places` names, in order, the frames of `fs` that are in `some`.
pub open spec fn picks(some: Seq<Frame<Seq<u8>>>, fs: Seq<Frame<Seq<u8>>>, places: Seq<int>) -> bool {
    &&& some.len() == places.len()
    &&& forall|k: int|
        0 <= k < places.len() ==> 0 <= #[trigger] places[k] < fs.len() && some[k] == fs[places[k]]
    &&& forall|j: int, k: int|
        0 <= j < k < places.len() ==> (#[trigger] places[j]) < #[trigger] places[k]
}

/// Those frames pass deduplication that are new, and no others, unchanged and in the order they
/// stand in. Frames without a number always pass. Afterwards the numbers of all the frames count
/// as arrived, beside those that did before.
pub proof fn lemma_new_frames_pass(seen: Set<u24>, fs: Seq<Frame<Seq<u8>>>)
    ensures
        exists|places: Seq<int>|
            {
                &&& #[trigger] picks(fresh_frames(seen, fs), fs, places)
                &&& forall|i: int|
                    0 <= i < fs.len() ==> (is_new(seen, fs, i) <==> #[trigger] places.contains(i))
            },
        forall|n: u24| #[trigger]
            numbers_seen(seen, fs).contains(n) <==> seen.contains(n) || exists|i: int|
                0 <= i < fs.len() && (#[trigger] fs[i]).reliable_frame_index == Some(n),
    decreases fs.len(),
{
    let fresh = fresh_frames(seen, fs);
    if fs.len() == 0 {
        assert(picks(fresh, fs, Seq::empty()));
    } else {
        let init = fs.drop_last();
        let last = fs.len() - 1;
        let f = fs.last();
        lemma_new_frames_pass(seen, init);
        let before = choose|places: Seq<int>|
            {
                &&& #[trigger] picks(fresh_frames(seen, init), init, places)
                &&& forall|i: int|
                    0 <= i < init.len() ==> (is_new(seen, init, i)
                        <==> #[trigger] places.contains(i))
            };
        assert forall|n: u24| #[trigger]
            numbers_seen(seen, fs).contains(n) <==> seen.contains(n) || exists|i: int|
                0 <= i < fs.len() && (#[trigger] fs[i]).reliable_frame_index == Some(n) by {
            assert(numbers_seen(seen, init).contains(n) <==> seen.contains(n) || exists|i: int|
                0 <= i < init.len() && (#[trigger] init[i]).reliable_frame_index == Some(n));
            if exists|i: int|
                0 <= i < init.len() && (#[trigger] init[i]).reliable_frame_index == Some(n) {
                let i = choose|i: int|
                    0 <= i < init.len() && (#[trigger] init[i]).reliable_frame_index == Some(n);
                assert(fs[i].reliable_frame_index == Some(n));
            }
            if exists|i: int| 0 <= i < fs.len() && (#[trigger] fs[i]).reliable_frame_index == Some(
                n,
            ) {
                let i = choose|i: int|
                    0 <= i < fs.len() && (#[trigger] fs[i]).reliable_frame_index == Some(n);
                if i < last {
                    assert(init[i].reliable_frame_index == Some(n));
                }
            }
            if f.reliable_frame_index == Some(n) {
                assert(fs[last].reliable_frame_index == Some(n));
            }
        }
        let passes = is_new(seen, fs, last);
        if let Some(n) = f.reliable_frame_index {
            assert(passes <==> !numbers_seen(seen, init).contains(n)) by {
                if passes && numbers_seen(seen, init).contains(n) {
                    let i = choose|i: int|
                        0 <= i < init.len() && (#[trigger] init[i]).reliable_frame_index == Some(n);
                    assert(fs[i].reliable_frame_index == Some(n));
                }
                if !numbers_seen(seen, init).contains(n) {
                    assert forall|j: int| 0 <= j < last implies (
                    #[trigger] fs[j]).reliable_frame_index != Some(n) by {
                        assert(init[j] == fs[j]);
                    }
                }
            }
        }
        let places = if passes {
            before.push(last)
        } else {
            before
        };
        assert(picks(fresh, fs, places));
        assert forall|i: int| 0 <= i < fs.len() implies (is_new(seen, fs, i)
            <==> #[trigger] places.contains(i)) by {
            if i < last {
                assert(init[i] == fs[i]);
                assert(is_new(seen, init, i) <==> is_new(seen, fs, i)) by {
                    assert forall|j: int| 0 <= j < i implies init[j] == #[trigger] fs[j] by {}
                    if is_new(seen, init, i) {
                        assert forall|j: int| 0 <= j < i implies (fs[i].reliable_frame_index is Some
                            ==> (#[trigger] fs[j]).reliable_frame_index
                            != fs[i].reliable_frame_index) by {
                            assert(init[j] == fs[j]);
                        }
                    }
                }
                assert(before.contains(i) <==> places.contains(i)) by {
                    if before.contains(i) {
                        let k = choose|k: int| 0 <= k < before.len() && before[k] == i;
                        assert(places[k] == i);
                    }
                    if places.contains(i) {
                        let k = choose|k: int| 0 <= k < places.len() && places[k] == i;
                        assert(before[k] == i);
                    }
                }
            } else {
                if passes {
                    assert(places[places.len() - 1] == last);
                } else if places.contains(i) {
                    let k = choose|k: int| 0 <= k < places.len() && places[k] == i;
                    assert(0 <= before[k] < init.len());
                }
            }
        }
    }
}

/// What a frame set does to the numbers that are to be acknowledged and to those that are to be
/// asked for. A set without faults is acknowledged, and every number from the one that was
/// expected up to the one before it is asked for; the number expected next is then the one behind
/// it, where that is not behind what was expected. A set with a part whose place cannot be is asked
/// for again, one with a part of a message that is too large is acknowledged; then nothing else
/// changes.
pub proof fn lemma_acknowledged(
    old_layer: DeFragment,
    new_layer: DeFragment,
    seq_num: u24,
    fs: Seq<Frame<Seq<u8>>>,
    before: (Seq<u24>, Seq<u24>),
    after: (Seq<u24>, Seq<u24>),
    r: Result<(), CodecError>,
)
    requires
        accepted(old_layer, new_layer, seq_num, fs, before, after, r),
        sorted(before.0),
        sorted(before.1),
        seq_num.wf(),
    ensures
        ({
            let read = old_layer.seq_num_read_index;
            let limit = old_layer.limit_size;
            let faultless = forall|i: int| 0 <= i < fs.len() ==> !unfit(#[trigger] fs[i], limit);
            let missing = Seq::new(
                if read.0 <= seq_num.0 {
                    (seq_num.0 - read.0) as nat
                } else {
                    0
                },
                |i: int| u24((read.0 + i) as u32),
            );
            &&& faultless <==> r is Ok
            &&& faultless ==> {
                &&& after.0.to_multiset() == before.0.to_multiset().insert(seq_num)
                &&& after.1.to_multiset() == before.1.to_multiset().add(missing.to_multiset())
                &&& read.0 > seq_num.0 ==> new_layer.seq_num_read_index == read
                &&& read.0 <= seq_num.0 < 0xff_ffff ==> new_layer.seq_num_read_index.0 == seq_num.0
                    + 1
                &&& read.0 <= seq_num.0 == 0xff_ffff ==> new_layer.seq_num_read_index.0 == 0
            }
            &&& !faultless ==> {
                &&& new_layer.seq_num_read_index == read
                &&& r matches Err(CodecError::PartedFrame(e)) && match e {
                    PartedError::IndexOutOfRange { parted_index, parted_size } => {
                        &&& after.0 == before.0
                        &&& after.1.to_multiset() == before.1.to_multiset().insert(seq_num)
                    },
                    PartedError::SizeExceeded { parted_size, limit_size } => {
                        &&& after.0.to_multiset() == before.0.to_multiset().insert(seq_num)
                        &&& after.1 == before.1
                    },
                }
            }
            &&& sorted(after.0)
            &&& sorted(after.1)
        }),
{
    let read = old_layer.seq_num_read_index;
    let limit = old_layer.limit_size;
    let c = old_layer.collected();
    lemma_parts_refused(c, old_layer.cap(), limit, seq_num, fs);
    lemma_insert_sorted(before.0, seq_num);
    lemma_insert_sorted(before.1, seq_num);
    lemma_gains(before.1, number_range(read, seq_num));
    let missing = Seq::new(
        if read.0 <= seq_num.0 {
            (seq_num.0 - read.0) as nat
        } else {
            0
        },
        |i: int| u24((read.0 + i) as u32),
    );
    assert(number_range(read, seq_num) =~= missing);
    if let Some(e) = collect_all(c, old_layer.cap(), limit, seq_num, fs).1 {
        let j = choose|j: int|
            {
                &&& 0 <= j < fs.len()
                &&& blamed(e, #[trigger] fs[j], limit)
                &&& forall|i: int| 0 <= i < j ==> !unfit(#[trigger] fs[i], limit)
            };
        assert(unfit(fs[j], limit));
    }
}

/// Of frames that arrive for one place before it is due, the one that came last waits; a frame for
/// a place that was passed on before changes nothing; and a frame for one place leaves what waits
/// for the others as it is.
pub proof fn lemma_last_waits<B>(
    ch: ChannelView<B>,
    i: u32,
    a: FrameSet<Frame<B>>,
    b: FrameSet<Frame<B>>,
)
    ensures
        ch.with_frame(i, a).with_frame(i, b) == ch.with_frame(i, b),
        i >= ch.read ==> ch.with_frame(i, b).held.contains_key(i) && ch.with_frame(i, b).held[i]
            == b,
        i < ch.read ==> ch.with_frame(i, b) == ch,
        ch.with_frame(i, b).read == ch.read,
        forall|j: u32|
            j != i ==> (#[trigger] ch.with_frame(i, b).held.contains_key(j)
                <==> ch.held.contains_key(j)),
        forall|j: u32|
            j != i && #[trigger] ch.held.contains_key(j) ==> ch.with_frame(i, b).held[j]
                == ch.held[j],
{
    assert(ch.with_frame(i, a).with_frame(i, b).held =~= ch.with_frame(i, b).held);
}

proof fn lemma_others_stay<V>(s: Seq<(u16, V)>, k: u16)
    ensures
        lookup(s, k) is Some <==> exists|i: int| 0 <= i < s.len() && (#[trigger] s[i]).0 == k,
        forall|i: int|
            0 <= i < s.len() && (#[trigger] s[i]).0 != k ==> without(s, k).contains(s[i]),
        forall|i: int| 0 <= i < without(s, k).len() ==> s.contains(#[trigger] without(s, k)[i]),
        lookup(s, k) is Some ==> without(s, k).len() == s.len() - 1,
        lookup(s, k) is None ==> without(s, k) == s,
    decreases s.len(),
{
    if s.len() > 0 {
        let tail = s.drop_first();
        let w = without(s, k);
        lemma_others_stay(tail, k);
        if exists|i: int| 0 <= i < s.len() && (#[trigger] s[i]).0 == k {
            let i = choose|i: int| 0 <= i < s.len() && (#[trigger] s[i]).0 == k;
            if i > 0 {
                assert(tail[i - 1].0 == k);
            }
        }
        if lookup(tail, k) is Some {
            let i = choose|i: int| 0 <= i < tail.len() && (#[trigger] tail[i]).0 == k;
            assert(s[i + 1].0 == k);
        }
        if s[0].0 == k {
            assert forall|i: int| 0 <= i < s.len() && (#[trigger] s[i]).0 != k implies w.contains(
                s[i],
            ) by {
                assert(w[i - 1] == s[i]);
            }
            assert forall|i: int| 0 <= i < w.len() implies s.contains(#[trigger] w[i]) by {
                assert(s[i + 1] == w[i]);
            }
        } else {
            let rest = without(tail, k);
            assert(w == seq![s[0]] + rest);
            assert forall|i: int| 0 <= i < s.len() && (#[trigger] s[i]).0 != k implies w.contains(
                s[i],
            ) by {
                if i == 0 {
                    assert(w[0] == s[0]);
                } else {
                    assert(tail[i - 1] == s[i]);
                    assert(rest.contains(tail[i - 1]));
                    let j = choose|j: int| 0 <= j < rest.len() && rest[j] == s[i];
                    assert(w[j + 1] == s[i]);
                }
            }
            assert forall|i: int| 0 <= i < w.len() implies s.contains(#[trigger] w[i]) by {
                if i == 0 {
                    assert(s[0] == w[0]);
                } else {
                    assert(w[i] == rest[i - 1]);
                    assert(tail.contains(rest[i - 1]));
                    let j = choose|j: int| 0 <= j < tail.len() && tail[j] == w[i];
                    assert(s[j + 1] == w[i]);
                }
            }
            if lookup(s, k) is None {
                assert(seq![s[0]] + tail =~= s);
            }
        }
    }
}

/// Room for parts. The layer collects parts of at most `cap` messages at a time. A part of a
/// message of which none waits makes the message give way that stands last, which is the one that
/// was not added to for the longest time, and that only where there is no room; all others keep
/// their parts. A message that is added to and is not whole yet stands first.
pub proof fn lemma_room_for_parts(
    c: Collected,
    cap: nat,
    limit_size: u32,
    seq_num: u24,
    f: Frame<Seq<u8>>,
)
    requires
        cap > 0,
        c.parts.len() <= cap,
        f.fragment is Some,
        !unfit(f, limit_size),
        forall|i: int, j: int|
            0 <= i < j < c.parts.len() ==> (#[trigger] c.parts[i]).0 != (#[trigger] c.parts[j]).0,
    ensures
        ({
            let id = f.fragment->Some_0.parted_id;
            let waits = exists|i: int| 0 <= i < c.parts.len() && (#[trigger] c.parts[i]).0 == id;
            let crowded = !waits && c.parts.len() == cap;
            let one = collect_one(c, cap, limit_size, seq_num, f).0;
            let once = collect_once(c, cap, limit_size, seq_num, f).0;
            &&& one.parts.len() <= cap
            &&& once.parts.len() <= cap
            &&& forall|i: int|
                0 <= i < c.parts.len() && (#[trigger] c.parts[i]).0 != id && !(crowded && i
                    == c.parts.len() - 1) ==> one.parts.contains(c.parts[i])
                    && once.parts.contains(c.parts[i])
            &&& crowded ==> forall|j: int|
                0 <= j < one.parts.len() ==> (#[trigger] one.parts[j]).0 != c.parts.last().0
            &&& crowded ==> forall|j: int|
                0 <= j < once.parts.len() ==> (#[trigger] once.parts[j]).0 != c.parts.last().0
            &&& one.ready == c.ready ==> one.parts.len() > 0 && one.parts[0].0 == id
            &&& once.ready == c.ready ==> once.parts.len() > 0 && once.parts[0].0 == id
        }),
{
    let fragment = f.fragment->Some_0;
    let id = fragment.parted_id;
    let rest = others(c.parts, cap, id);
    lemma_others_stay(c.parts, id);
    let waits = exists|i: int| 0 <= i < c.parts.len() && (#[trigger] c.parts[i]).0 == id;
    let crowded = !waits && c.parts.len() == cap;
    assert forall|i: int|
        0 <= i < c.parts.len() && (#[trigger] c.parts[i]).0 != id && !(crowded && i
            == c.parts.len() - 1) implies rest.contains(c.parts[i]) by {
        if !waits {
            assert(rest[i] == c.parts[i]);
        }
    }
    assert(rest.len() < cap);
    let one = collect_one(c, cap, limit_size, seq_num, f).0;
    let once = collect_once(c, cap, limit_size, seq_num, f).0;
    lemma_with_rest(c, cap, seq_num, fragment, gathered(c.parts, fragment, f), rest);
    lemma_with_rest(c, cap, seq_num, fragment, gathered_once(c.parts, fragment, f), rest);
    assert(crowded ==> rest == c.parts.drop_last());
    if crowded {
        let last = c.parts.last().0;
        assert(c.parts[c.parts.len() - 1].0 != id);
        assert forall|j: int| 0 <= j < rest.len() implies (#[trigger] rest[j]).0 != last by {
            assert(c.parts[j].0 != c.parts[c.parts.len() - 1].0);
        }
        assert forall|j: int| 0 <= j < one.parts.len() implies (#[trigger] one.parts[j]).0
            != last by {
            if one.parts.len() == rest.len() {
                assert(one.parts[j] == rest[j]);
            } else if j > 0 {
                assert(one.parts[j] == rest[j - 1]);
            }
        }
        assert forall|j: int| 0 <= j < once.parts.len() implies (#[trigger] once.parts[j]).0
            != last by {
            if once.parts.len() == rest.len() {
                assert(once.parts[j] == rest[j]);
            } else if j > 0 {
                assert(once.parts[j] == rest[j - 1]);
            }
        }
    }
}

proof fn lemma_with_rest(
    c: Collected,
    cap: nat,
    seq_num: u24,
    fragment: Fragment,
    ps: Seq<FramePart<Seq<u8>>>,
    rest: Seq<(u16, Seq<FramePart<Seq<u8>>>)>,
)
    requires
        rest == others(c.parts, cap, fragment.parted_id),
    ensures
        ({
            let d = with_parts(c, cap, seq_num, fragment, ps);
            &&& d.parts == rest || d.parts == seq![(fragment.parted_id, ps)] + rest
            &&& d.ready == c.ready ==> d.parts.len() > 0 && d.parts[0].0 == fragment.parted_id
            &&& forall|x: (u16, Seq<FramePart<Seq<u8>>>)| #[trigger]
                rest.contains(x) ==> d.parts.contains(x)
        }),
{
    let d = with_parts(c, cap, seq_num, fragment, ps);
    assert forall|x: (u16, Seq<FramePart<Seq<u8>>>)| #[trigger]
        rest.contains(x) implies d.parts.contains(x) by {
        let j = choose|j: int| 0 <= j < rest.len() && rest[j] == x;
        if ps.len() < fragment.parted_size {
            assert(d.parts[j + 1] == x);
        } else {
            assert(d.parts[j] == x);
        }
    }
    if ps.len() >= fragment.parted_size {
        assert(d.ready.len() == c.ready.len() + 1);
    }
}

/// What the parts of a message make: one part stays as it is. Of more, the frame has the numbers
/// and the place of the first, is no part itself, and each part adds its body behind those of the
/// parts before it.
pub proof fn lemma_merged_frame(ps: Seq<FramePart<Seq<u8>>>, p: FramePart<Seq<u8>>)
    requires
        ps.len() > 0,
    ensures
        ps.len() == 1 ==> merged(ps) == ps[0].frame,
        ({
            let f = merged(ps.push(p));
            let first = ps[0].frame;
            &&& f.body == merged(ps).body + p.frame.body
            &&& f.reliable_frame_index == first.reliable_frame_index
            &&& f.seq_frame_index == first.seq_frame_index
            &&& f.ordered == first.ordered
            &&& f.flags.reliability == first.flags.reliability
            &&& first.flags.parted ==> f.fragment is None && !f.flags.parted
        }),
{
    assert(ps.push(p).drop_last() =~= ps);
    if ps.len() == 1 {
        assert(ps.drop_last() =~= Seq::empty());
        assert(joined(ps.drop_last()) =~= Seq::empty());
        assert(joined(ps) =~= ps[0].frame.body);
    }
}

/// How parts are counted. A part that is taken waits with the others of its message until there
/// are as many as the message has. One that is the same as one that waits, byte for byte, does not
/// count again where each part counts once; one that differs in anything does.
pub proof fn lemma_parts_counted(
    c: Collected,
    cap: nat,
    limit_size: u32,
    seq_num: u24,
    f: Frame<Seq<u8>>,
)
    requires
        f.fragment is Some,
        !unfit(f, limit_size),
        sorted(waiting_parts(c.parts, f.fragment->Some_0.parted_id)),
    ensures
        ({
            let p = f.fragment->Some_0;
            let before = waiting_parts(c.parts, p.parted_id);
            let part = FramePart { parted_index: p.parted_index, frame: f };
            let one = collect_one(c, cap, limit_size, seq_num, f).0;
            let once = collect_once(c, cap, limit_size, seq_num, f).0;
            let again = before.contains(part);
            let n = before.len() + 1;
            let m = if again {
                before.len()
            } else {
                n
            };
            &&& n < p.parted_size ==> {
                let after = waiting_parts(one.parts, p.parted_id);
                &&& one.ready == c.ready
                &&& after.to_multiset() == before.to_multiset().insert(part)
                &&& sorted(after)
            }
            &&& n >= p.parted_size ==> one.ready.len() == c.ready.len() + 1
            &&& m < p.parted_size ==> {
                let after = waiting_parts(once.parts, p.parted_id);
                &&& once.ready == c.ready
                &&& again ==> after == before
                &&& !again ==> after.to_multiset() == before.to_multiset().insert(part)
            }
            &&& m >= p.parted_size ==> once.ready.len() == c.ready.len() + 1
        }),
{
    let p = f.fragment->Some_0;
    let before = waiting_parts(c.parts, p.parted_id);
    let part = FramePart { parted_index: p.parted_index, frame: f };
    lemma_insert_sorted(before, part);
    let ps = gathered(c.parts, p, f);
    let qs = gathered_once(c.parts, p, f);
    assert(ps == insert_sorted(before, part));
    let rest = others(c.parts, cap, p.parted_id);
    assert((seq![(p.parted_id, ps)] + rest)[0] == (p.parted_id, ps));
    assert((seq![(p.parted_id, qs)] + rest)[0] == (p.parted_id, qs));
}

} // verus!
