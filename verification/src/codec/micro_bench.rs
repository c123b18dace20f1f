//! Inputs for benchmarks of the codec: datagrams as the frame sets that a peer would send.
use std::collections::VecDeque;

use bytes::{Bytes, BytesMut};
use vstd::prelude::*;

use crate::buf::{bytes_len, into_buf, Body, Contents};
use crate::codec::encoder::fragment::{counters_after, fits, frames_of, Counters, Fragment};
use crate::codec::encoder::numbering::lemma_numbering;
use crate::message::Message;
use crate::packet::connected::frame::{Frame, BODY_LIMIT};
use crate::packet::connected::frame_set::{frames_view, FrameSet, FRAME_SET_HEADER_SIZE};
use crate::packet::connected::reliability::Reliability;
use crate::uint24::{u24, U24_RANGE};

verus! {

/// The lengths of the datagrams, summed up.
pub open spec fn total_len(ds: Seq<Bytes>) -> nat
    decreases ds.len(),
{
    if ds.len() == 0 {
        0
    } else {
        total_len(ds.drop_last()) + ds.last().seq().len()
    }
}

/// How many bytes the datagrams have.
pub fn bytes(datagrams: &Vec<Bytes>) -> (r: u64)
    requires
        total_len(datagrams@) <= u64::MAX,
    ensures
        r == total_len(datagrams@),
{
    let mut sum: u64 = 0;
    let mut i: usize = 0;
    assert(datagrams@.take(0) =~= Seq::empty());
    while i < datagrams.len()
        invariant
            i <= datagrams@.len(),
            total_len(datagrams@) <= u64::MAX,
            sum == total_len(datagrams@.take(i as int)),
        decreases datagrams@.len() - i,
    {
        proof {
            assert(datagrams@.take(i + 1).drop_last() =~= datagrams@.take(i as int));
            lemma_total_prefix(datagrams@, i + 1);
        }
        sum = sum + bytes_len(&datagrams[i]) as u64;
        i = i + 1;
    }
    assert(datagrams@.take(i as int) =~= datagrams@);
    sum
}

/// How many datagrams there are.
pub fn elements(datagrams: &Vec<Bytes>) -> (r: u64)
    ensures
        r == datagrams@.len(),
{
    datagrams.len() as u64
}

proof fn lemma_total_prefix(ds: Seq<Bytes>, n: int)
    requires
        0 <= n <= ds.len(),
    ensures
        total_len(ds.take(n)) <= total_len(ds),
    decreases ds.len() - n,
{
    if n == ds.len() {
        assert(ds.take(n) =~= ds);
    } else {
        assert(ds.take(n + 1).drop_last() =~= ds.take(n));
        lemma_total_prefix(ds, n + 1);
    }
}

/// The frames of the datagrams, each sent as a message by default, and what numbers those behind
/// them.
pub open spec fn all_frames(c: Counters, mtu: int, ds: Seq<Seq<u8>>) -> (
    Seq<Frame<Seq<u8>>>,
    Counters,
)
    decreases ds.len(),
{
    if ds.len() == 0 {
        (Seq::empty(), c)
    } else {
        let (fs, c) = all_frames(c, mtu, ds.drop_last());
        (
            fs + frames_of(c, mtu, Reliability::ReliableOrdered, 0, ds.last()),
            counters_after(c, mtu, Reliability::ReliableOrdered, 0, ds.last()),
        )
    }
}

/// What the datagrams hold.
pub open spec fn contents(ds: Seq<Bytes>) -> Seq<Seq<u8>> {
    Seq::new(ds.len(), |i: int| ds[i].seq())
}

/// How many of the frames fit in `room` bytes, taken from the front until one does not.
pub open spec fn group_len(fs: Seq<Frame<Seq<u8>>>, room: int) -> int
    decreases fs.len(),
{
    if fs.len() > 0 && fs[0].spec_size() <= room {
        1 + group_len(fs.skip(1), room - fs[0].spec_size())
    } else {
        0
    }
}

/// The frame sets that carry the frames, each with as many as fit, numbered from `seq_num`. One
/// that `dup` says so of is sent twice, the last one never.
pub open spec fn packed(fs: Seq<Frame<Seq<u8>>>, mtu: int, dup: Seq<bool>, seq_num: int) -> Seq<
    FrameSet<Seq<Frame<Seq<u8>>>>,
>
    decreases fs.len(),
{
    let n = group_len(fs, mtu - FRAME_SET_HEADER_SIZE);
    if fs.len() == 0 || n <= 0 || n > fs.len() {
        Seq::empty()
    } else if n == fs.len() {
        seq![FrameSet { seq_num: u24(seq_num as u32), set: fs }]
    } else if dup.len() > 0 && dup[0] {
        seq![
            FrameSet { seq_num: u24(seq_num as u32), set: fs.take(n) },
            FrameSet { seq_num: u24((seq_num + 1) as u32), set: fs.take(n) },
        ] + packed(fs.skip(n), mtu, dup.skip(1), seq_num + 2)
    } else {
        seq![FrameSet { seq_num: u24(seq_num as u32), set: fs.take(n) }] + packed(
            fs.skip(n),
            mtu,
            if dup.len() > 0 {
                dup.skip(1)
            } else {
                dup
            },
            seq_num + 1,
        )
    }
}

/// What frame sets hold.
pub open spec fn sets_view<B: Contents>(s: Seq<FrameSet<Vec<Frame<B>>>>) -> Seq<
    FrameSet<Seq<Frame<Seq<u8>>>>,
> {
    Seq::new(s.len(), |i: int| FrameSet { seq_num: s[i].seq_num, set: frames_view(s[i].set@) })
}

/// The frames of the datagrams, each sent as a message by default.
pub fn fragment_all(datagrams: Vec<Bytes>, mtu: usize) -> (r: VecDeque<Frame<BytesMut>>)
    requires
        forall|i: int|
            0 <= i < datagrams@.len() ==> fits(
                mtu as int,
                Reliability::ReliableOrdered,
                (#[trigger] datagrams@[i]).seq().len() as int,
            ),
    ensures
        frames_view(r@) == all_frames(
            Counters { reliable: u24(0), order: seq![u24(0)], parted_id: 0 },
            mtu as int,
            contents(datagrams@),
        ).0,
{
    let mut layer = Fragment::new(mtu, 1);
    let ghost c = layer.counters();
    let ghost ds = contents(datagrams@);
    let mut r: VecDeque<Frame<BytesMut>> = VecDeque::new();
    proof {
        assert(c.order =~= seq![u24(0)]);
        assert(ds.take(0) =~= Seq::empty());
        assert(frames_view(r@) =~= Seq::empty());
    }
    for datagram in iter: datagrams.into_iter()
        invariant
            ds == contents(iter.seq()),
            layer.wf(),
            layer.mtu == mtu,
            layer.order_write_index@.len() == 1,
            forall|i: int|
                0 <= i < iter.seq().len() ==> fits(
                    mtu as int,
                    Reliability::ReliableOrdered,
                    (#[trigger] iter.seq()[i]).seq().len() as int,
                ),
            (frames_view(r@), layer.counters()) == all_frames(
                c,
                mtu as int,
                ds.take(iter.index() as int),
            ),
    {
        let ghost i = iter.index() as int;
        proof {
            assert(iter.seq()[i] == datagram);
            assert(ds.take(i + 1).drop_last() =~= ds.take(i));
            assert(ds.take(i + 1).last() == datagram.seq());
        }
        let ghost before = frames_view(r@);
        let frames = layer.fragment(Message::new(datagram));
        let ghost more = frames_view(frames@);
        assert(before + more.take(0) =~= before);
        for frame in inner: frames.into_iter()
            invariant
                more == frames_view(inner.seq()),
                frames_view(r@) == before + more.take(inner.index() as int),
        {
            let ghost k = inner.index() as int;
            let ghost seen = r@;
            let frame = Frame {
                flags: frame.flags,
                reliable_frame_index: frame.reliable_frame_index,
                seq_frame_index: frame.seq_frame_index,
                ordered: frame.ordered,
                fragment: frame.fragment,
                body: into_buf(frame.body),
            };
            r.push_back(frame);
            proof {
                assert(frame@ == more[k]);
                assert(frames_view(r@) =~= frames_view(seen).push(frame@));
                assert(frames_view(r@) =~= before + more.take(k + 1));
            }
        }
        assert(more.take(more.len() as int) =~= more);
    }
    assert(ds.take(ds.len() as int) =~= ds);
    r
}

fn share_frames(frames: &Vec<Frame<BytesMut>>) -> (r: Vec<Frame<BytesMut>>)
    ensures
        frames_view(r@) == frames_view(frames@),
{
    let mut r: Vec<Frame<BytesMut>> = Vec::new();
    let mut i: usize = 0;
    while i < frames.len()
        invariant
            i <= frames@.len(),
            r@.len() == i,
            forall|k: int| 0 <= k < i ==> (#[trigger] r@[k])@ == frames@[k]@,
        decreases frames@.len() - i,
    {
        let f = &frames[i];
        r.push(
            Frame {
                flags: f.flags,
                reliable_frame_index: f.reliable_frame_index,
                seq_frame_index: f.seq_frame_index,
                ordered: f.ordered,
                fragment: f.fragment,
                body: f.body.share(),
            },
        );
        i = i + 1;
    }
    assert(frames_view(r@) =~= frames_view(frames@));
    r
}

/// Takes from the front the frames that fit in `room` bytes.
fn take_group(frames: &mut VecDeque<Frame<BytesMut>>, room: usize) -> (r: Vec<Frame<BytesMut>>)
    requires
        forall|i: int|
            0 <= i < old(frames)@.len() ==> (#[trigger] old(frames)@[i])@.body.len() < BODY_LIMIT,
    ensures
        ({
            let fs = frames_view(old(frames)@);
            let n = group_len(fs, room as int);
            &&& 0 <= n <= fs.len()
            &&& frames_view(r@) == fs.take(n)
            &&& frames_view(final(frames)@) == fs.skip(n)
            &&& final(frames)@ == old(frames)@.skip(n)
        }),
{
    let ghost all = frames@;
    let ghost fs = frames_view(all);
    let mut left: usize = room;
    let mut r: Vec<Frame<BytesMut>> = Vec::new();
    let ghost mut n: int = 0;
    assert(fs.skip(0) =~= fs);
    assert(all.skip(0) =~= all);
    assert(frames_view(r@) =~= fs.take(0));
    while frames.len() > 0
        invariant_except_break
            group_len(fs, room as int) == n + group_len(fs.skip(n), left as int),
        invariant
            fs == frames_view(all),
            0 <= n <= fs.len(),
            frames@ == all.skip(n),
            frames_view(r@) == fs.take(n),
            forall|i: int| 0 <= i < all.len() ==> (#[trigger] all[i])@.body.len() < BODY_LIMIT,
        ensures
            n == group_len(fs, room as int),
        decreases frames@.len(),
    {
        assert(frames@[0] == all[n]);
        assert(fs.skip(n)[0] == fs[n]);
        assert(fs[n] == all[n]@);
        let size: usize = frames[0].size();
        if left < size {
            break;
        }
        left = left - size;
        let ghost seen = r@;
        let frame = frames.pop_front().unwrap();
        r.push(frame);
        proof {
            assert(all.skip(n).subrange(1, all.skip(n).len() as int) =~= all.skip(n + 1));
            assert(fs.skip(n).skip(1) =~= fs.skip(n + 1));
            assert(frames_view(r@) =~= frames_view(seen).push(fs[n]));
            assert(frames_view(r@) =~= fs.take(n + 1));
            n = n + 1;
        }
    }
    assert(frames_view(frames@) =~= fs.skip(n));
    r
}

/// Packs the frames into frame sets. One that `dup` says so of is sent twice, the last one never.
pub fn pack(frames: VecDeque<Frame<BytesMut>>, mtu: usize, dup: &Vec<bool>) -> (r: Vec<
    FrameSet<Vec<Frame<BytesMut>>>,
>)
    requires
        mtu >= FRAME_SET_HEADER_SIZE,
        2 * frames@.len() < U24_RANGE,
        forall|i: int|
            0 <= i < frames@.len() ==> (#[trigger] frames@[i])@.body.len() < BODY_LIMIT
                && frames@[i]@.spec_size() + FRAME_SET_HEADER_SIZE <= mtu,
    ensures
        sets_view(r@) == packed(frames_view(frames@), mtu as int, dup@, 0),
{
    let ghost all = frames_view(frames@);
    let ghost m = mtu as int;
    let mut frames: VecDeque<Frame<BytesMut>> = frames;
    let mut r: Vec<FrameSet<Vec<Frame<BytesMut>>>> = Vec::new();
    let mut d: usize = 0;
    proof {
        assert(dup@.skip(0) =~= dup@);
        assert(sets_view(r@) + packed(all, m, dup@, 0) =~= packed(all, m, dup@, 0));
    }
    while frames.len() > 0
        invariant
            mtu >= FRAME_SET_HEADER_SIZE,
            m == mtu,
            d <= dup@.len(),
            r@.len() + 2 * frames@.len() < U24_RANGE,
            forall|i: int|
                0 <= i < frames@.len() ==> (#[trigger] frames@[i])@.body.len() < BODY_LIMIT
                    && frames@[i]@.spec_size() + FRAME_SET_HEADER_SIZE <= mtu,
            sets_view(r@) + packed(
                frames_view(frames@),
                m,
                dup@.skip(d as int),
                r@.len() as int,
            ) == packed(all, m, dup@, 0),
        decreases frames@.len(),
    {
        let ghost fs = frames_view(frames@);
        let ghost flags = dup@.skip(d as int);
        let ghost k = r@.len() as int;
        let ghost sets = sets_view(r@);
        let ghost before = frames@;
        proof {
            assert(fs[0] == frames@[0]@);
            lemma_group(fs, m - FRAME_SET_HEADER_SIZE);
        }
        let set = take_group(&mut frames, mtu - FRAME_SET_HEADER_SIZE);
        let ghost group = frames_view(set@);
        let ghost n = group_len(fs, m - FRAME_SET_HEADER_SIZE);
        proof {
            assert forall|i: int| 0 <= i < frames@.len() implies (
            #[trigger] frames@[i])@.body.len() < BODY_LIMIT && frames@[i]@.spec_size()
                + FRAME_SET_HEADER_SIZE <= mtu by {
                assert(frames@[i] == before[i + n]);
            }
        }
        if frames.len() == 0 {
            let seq_num = u24(r.len() as u32);
            let ghost seen = r@;
            r.push(FrameSet { seq_num, set });
            proof {
                assert(fs.take(n) =~= fs);
                assert(sets_view(r@) =~= sets + packed(fs, m, flags, k));
                assert(packed(frames_view(frames@), m, flags, k + 1) =~= Seq::empty());
                assert(sets_view(r@) + packed(frames_view(frames@), m, flags, k + 1) =~= sets
                    + packed(fs, m, flags, k));
            }
        } else {
            let twice = d < dup.len() && dup[d];
            let ghost rest_flags = if flags.len() > 0 {
                flags.skip(1)
            } else {
                flags
            };
            if d < dup.len() {
                d = d + 1;
            }
            assert(dup@.skip(d as int) =~= rest_flags);
            if twice {
                let copy = share_frames(&set);
                let seq_num = u24(r.len() as u32);
                r.push(FrameSet { seq_num, set: copy });
                let seq_num = u24(r.len() as u32);
                r.push(FrameSet { seq_num, set });
                proof {
                    let tail = packed(frames_view(frames@), m, rest_flags, k + 2);
                    assert(sets_view(r@) =~= sets + seq![
                        FrameSet { seq_num: u24(k as u32), set: group },
                        FrameSet { seq_num: u24((k + 1) as u32), set: group },
                    ]);
                    assert(sets_view(r@) + tail =~= sets + packed(fs, m, flags, k));
                }
            } else {
                let seq_num = u24(r.len() as u32);
                r.push(FrameSet { seq_num, set });
                proof {
                    let tail = packed(frames_view(frames@), m, rest_flags, k + 1);
                    assert(sets_view(r@) =~= sets + seq![
                        FrameSet { seq_num: u24(k as u32), set: group },
                    ]);
                    assert(sets_view(r@) + tail =~= sets + packed(fs, m, flags, k));
                }
            }
        }
    }
    assert(sets_view(r@) =~= packed(all, m, dup@, 0));
    r
}

proof fn lemma_group(fs: Seq<Frame<Seq<u8>>>, room: int)
    ensures
        0 <= group_len(fs, room) <= fs.len(),
        fs.len() > 0 && fs[0].spec_size() <= room ==> group_len(fs, room) >= 1,
    decreases fs.len(),
{
    if fs.len() > 0 && fs[0].spec_size() <= room {
        lemma_group(fs.skip(1), room - fs[0].spec_size());
    }
}

/// How many bytes the frames take in a packet.
pub open spec fn sizes(fs: Seq<Frame<Seq<u8>>>) -> int
    decreases fs.len(),
{
    if fs.len() == 0 {
        0
    } else {
        fs[0].spec_size() + sizes(fs.drop_first())
    }
}

proof fn lemma_group_fits(fs: Seq<Frame<Seq<u8>>>, room: int)
    requires
        room >= 0,
    ensures
        ({
            let n = group_len(fs, room);
            &&& 0 <= n <= fs.len()
            &&& sizes(fs.take(n)) <= room
            &&& n < fs.len() ==> sizes(fs.take(n)) + fs[n].spec_size() > room
        }),
    decreases fs.len(),
{
    lemma_group(fs, room);
    let n = group_len(fs, room);
    if fs.len() > 0 && fs[0].spec_size() <= room {
        let rest = fs.skip(1);
        lemma_group_fits(rest, room - fs[0].spec_size());
        assert(fs.take(n).drop_first() =~= rest.take(n - 1));
        if n < fs.len() {
            assert(rest[n - 1] == fs[n]);
        }
    } else {
        assert(fs.take(0) =~= Seq::empty());
    }
}

/// The group `j` is not empty and fits in a packet of `mtu` bytes, and the frame behind it would
/// not fit any more.
pub open spec fn full_group(fs: Seq<Frame<Seq<u8>>>, mtu: int, cuts: Seq<int>, j: int) -> bool {
    let a = cuts[j];
    let b = cuts[j + 1];
    &&& 0 <= a < b <= fs.len()
    &&& 4 + sizes(fs.subrange(a, b)) <= mtu
    &&& b < fs.len() ==> 4 + sizes(fs.subrange(a, b)) + fs[b].spec_size() > mtu
}

/// The set `i` carries its group, whole and in order, under its number; and the next set carries
/// the next group, or the same once more where `dup` says so.
pub open spec fn in_turn(
    sets: Seq<FrameSet<Seq<Frame<Seq<u8>>>>>,
    fs: Seq<Frame<Seq<u8>>>,
    dup: Seq<bool>,
    seq_num: int,
    cuts: Seq<int>,
    group: Seq<int>,
    i: int,
) -> bool {
    let j = group[i];
    let groups = cuts.len() - 1;
    let first = i == 0 || group[i - 1] < j;
    let twice = j < groups - 1 && j < dup.len() && dup[j];
    &&& 0 <= j < groups
    &&& sets[i].seq_num == u24((seq_num + i) as u32)
    &&& sets[i].set == fs.subrange(cuts[j], cuts[j + 1])
    &&& i < sets.len() - 1 ==> group[i + 1] == (if first && twice {
        j
    } else {
        j + 1
    })
}

/// `sets` carry `fs`: the frames are cut at `cuts` into groups, and the set `i` carries the group
/// `group[i]`. The sets are numbered one by one from `seq_num`. The groups are sent in turn, one
/// that `dup` says so of twice, all others once, the last one among them.
pub open spec fn carries(
    sets: Seq<FrameSet<Seq<Frame<Seq<u8>>>>>,
    fs: Seq<Frame<Seq<u8>>>,
    mtu: int,
    dup: Seq<bool>,
    seq_num: int,
    cuts: Seq<int>,
    group: Seq<int>,
) -> bool {
    &&& cuts.len() >= 2
    &&& cuts[0] == 0
    &&& cuts.last() == fs.len()
    &&& forall|j: int| 0 <= j < cuts.len() - 1 ==> #[trigger] full_group(fs, mtu, cuts, j)
    &&& group.len() == sets.len()
    &&& group.len() > 0
    &&& group[0] == 0
    &&& group.last() == cuts.len() - 2
    &&& forall|i: int|
        0 <= i < sets.len() ==> #[trigger] in_turn(sets, fs, dup, seq_num, cuts, group, i)
}

spec fn cuts_more(cuts: Seq<int>, n: int) -> Seq<int> {
    Seq::new(
        (cuts.len() + 1) as nat,
        |j: int|
            if j == 0 {
                0int
            } else {
                cuts[j - 1] + n
            },
    )
}

spec fn group_more(group: Seq<int>, k: int) -> Seq<int> {
    Seq::new(
        (group.len() + k) as nat,
        |i: int|
            if i < k {
                0int
            } else {
                group[i - k] + 1
            },
    )
}

proof fn lemma_full_groups(fs: Seq<Frame<Seq<u8>>>, mtu: int, n: int, cuts: Seq<int>, j: int)
    requires
        0 < n < fs.len(),
        4 + sizes(fs.take(n)) <= mtu,
        4 + sizes(fs.take(n)) + fs[n].spec_size() > mtu,
        cuts.len() >= 2,
        cuts[0] == 0,
        forall|j: int| 0 <= j < cuts.len() - 1 ==> #[trigger] full_group(fs.skip(n), mtu, cuts, j),
        0 <= j < cuts.len(),
    ensures
        full_group(fs, mtu, cuts_more(cuts, n), j),
{
    let tail = fs.skip(n);
    if j == 0 {
        assert(fs.subrange(0, n) =~= fs.take(n));
    } else {
        let a = cuts[j - 1];
        let b = cuts[j];
        assert(full_group(tail, mtu, cuts, j - 1));
        assert(fs.subrange(a + n, b + n) =~= tail.subrange(a, b));
        if b < tail.len() {
            assert(tail[b] == fs[b + n]);
        }
    }
}

proof fn lemma_carries_more(
    sets: Seq<FrameSet<Seq<Frame<Seq<u8>>>>>,
    fs: Seq<Frame<Seq<u8>>>,
    mtu: int,
    dup: Seq<bool>,
    seq_num: int,
    n: int,
    k: int,
    flags: Seq<bool>,
    rest: Seq<FrameSet<Seq<Frame<Seq<u8>>>>>,
    cuts: Seq<int>,
    group: Seq<int>,
)
    requires
        0 < n < fs.len(),
        4 + sizes(fs.take(n)) <= mtu,
        4 + sizes(fs.take(n)) + fs[n].spec_size() > mtu,
        k == (if dup.len() > 0 && dup[0] {
            2int
        } else {
            1int
        }),
        flags == (if dup.len() > 0 {
            dup.skip(1)
        } else {
            dup
        }),
        carries(rest, fs.skip(n), mtu, flags, seq_num + k, cuts, group),
        sets.len() == rest.len() + k,
        forall|i: int|
            0 <= i < k ==> #[trigger] sets[i] == (FrameSet {
                seq_num: u24((seq_num + i) as u32),
                set: fs.take(n),
            }),
        forall|i: int| k <= i < sets.len() ==> #[trigger] sets[i] == rest[i - k],
    ensures
        carries(sets, fs, mtu, dup, seq_num, cuts_more(cuts, n), group_more(group, k)),
{
    let tail = fs.skip(n);
    let all_cuts = cuts_more(cuts, n);
    let all_group = group_more(group, k);
    assert forall|j: int| 0 <= j < all_cuts.len() - 1 implies #[trigger] full_group(
        fs,
        mtu,
        all_cuts,
        j,
    ) by {
        lemma_full_groups(fs, mtu, n, cuts, j);
    }
    assert forall|i: int| 0 <= i < sets.len() implies #[trigger] in_turn(
        sets,
        fs,
        dup,
        seq_num,
        all_cuts,
        all_group,
        i,
    ) by {
        if i < k {
            assert(fs.subrange(0, n) =~= fs.take(n));
            assert(sets[i].set == fs.take(n));
            assert(all_group[i] == 0);
            assert(all_group[i + 1] == (if i + 1 < k {
                0int
            } else {
                group[0] + 1
            }));
        } else {
            let j = group[i - k];
            assert(in_turn(rest, tail, flags, seq_num + k, cuts, group, i - k));
            assert(full_group(tail, mtu, cuts, j));
            assert(sets[i] == rest[i - k]);
            assert(fs.subrange(cuts[j] + n, cuts[j + 1] + n) =~= tail.subrange(
                cuts[j],
                cuts[j + 1],
            ));
            if j < flags.len() {
                assert(flags[j] == dup[j + 1]);
            }
        }
    }
}

/// How frames are packed: as `carries` says, where each of them fits in a packet of its own.
pub proof fn lemma_packed(fs: Seq<Frame<Seq<u8>>>, mtu: int, dup: Seq<bool>, seq_num: int)
    requires
        fs.len() > 0,
        forall|i: int| 0 <= i < fs.len() ==> (#[trigger] fs[i]).spec_size() + 4 <= mtu,
    ensures
        exists|cuts: Seq<int>, group: Seq<int>| #[trigger]
            carries(packed(fs, mtu, dup, seq_num), fs, mtu, dup, seq_num, cuts, group),
    decreases fs.len(),
{
    let room = mtu - 4;
    let sets = packed(fs, mtu, dup, seq_num);
    let n = group_len(fs, room);
    assert(fs[0].spec_size() + 4 <= mtu);
    lemma_group(fs, room);
    lemma_group_fits(fs, room);
    if n == fs.len() {
        assert(fs.take(n) =~= fs);
        assert(fs.subrange(0, n) =~= fs);
        assert(full_group(fs, mtu, seq![0int, n], 0));
        assert(in_turn(sets, fs, dup, seq_num, seq![0int, n], seq![0int], 0));
        assert(carries(sets, fs, mtu, dup, seq_num, seq![0int, n], seq![0int]));
    } else {
        let tail = fs.skip(n);
        assert forall|i: int| 0 <= i < tail.len() implies (#[trigger] tail[i]).spec_size() + 4
            <= mtu by {
            assert(tail[i] == fs[i + n]);
        }
        let twice = dup.len() > 0 && dup[0];
        let flags = if dup.len() > 0 {
            dup.skip(1)
        } else {
            dup
        };
        let k = if twice {
            2int
        } else {
            1int
        };
        lemma_packed(tail, mtu, flags, seq_num + k);
        let rest = packed(tail, mtu, flags, seq_num + k);
        let (cuts, group) = choose|cuts: Seq<int>, group: Seq<int>| #[trigger]
            carries(rest, tail, mtu, flags, seq_num + k, cuts, group);
        lemma_carries_more(sets, fs, mtu, dup, seq_num, n, k, flags, rest, cuts, group);
    }
}

/// The frames of datagrams are those of the first ones, followed by those of the others, numbered
/// on from there; and the frames of one datagram are those of a message by default.
pub proof fn lemma_frames_in_turn(c: Counters, mtu: int, ds: Seq<Seq<u8>>, d: Seq<u8>)
    ensures
        all_frames(c, mtu, ds.push(d)).0 == all_frames(c, mtu, ds).0 + frames_of(
            all_frames(c, mtu, ds).1,
            mtu,
            Reliability::ReliableOrdered,
            0,
            d,
        ),
        all_frames(c, mtu, Seq::empty()).0 == Seq::<Frame<Seq<u8>>>::empty(),
        all_frames(c, mtu, Seq::empty()).1 == c,
{
    assert(ds.push(d).drop_last() =~= ds);
}

/// The frames of datagrams are numbered one by one, over the end of the 24 bits.
pub proof fn lemma_frames_numbered(c: Counters, mtu: int, ds: Seq<Seq<u8>>)
    requires
        c.reliable.wf(),
        c.order.len() > 0,
    ensures
        ({
            let (fs, d) = all_frames(c, mtu, ds);
            &&& forall|i: int|
                0 <= i < fs.len() ==> (#[trigger] fs[i]).reliable_frame_index == Some(
                    u24(((c.reliable.0 + i) % 0x100_0000) as u32),
                )
            &&& d.reliable == u24(((c.reliable.0 + fs.len()) % 0x100_0000) as u32)
            &&& d.order.len() == c.order.len()
        }),
    decreases ds.len(),
{
    if ds.len() > 0 {
        let init = ds.drop_last();
        lemma_frames_numbered(c, mtu, init);
        let (before, mid) = all_frames(c, mtu, init);
        let (fs, d) = all_frames(c, mtu, ds);
        let r = Reliability::ReliableOrdered;
        let more = frames_of(mid, mtu, r, 0, ds.last());
        lemma_numbering(mid, mtu, r, 0, ds.last());
        let n = before.len() as int;
        assert forall|i: int| 0 <= i < fs.len() implies (#[trigger] fs[i]).reliable_frame_index
            == Some(u24(((c.reliable.0 + i) % 0x100_0000) as u32)) by {
            if i < n {
                assert(fs[i] == before[i]);
            } else {
                assert(fs[i] == more[i - n]);
                lemma_wrap(c.reliable.0 + n, i - n);
            }
        }
        lemma_wrap(c.reliable.0 + n, more.len() as int);
    }
}

proof fn lemma_wrap(a: int, k: int)
    ensures
        (a % 0x100_0000 + k) % 0x100_0000 == (a + k) % 0x100_0000,
{
    vstd::arithmetic::div_mod::lemma_add_mod_noop(a, k, 0x100_0000);
    vstd::arithmetic::div_mod::lemma_add_mod_noop(a % 0x100_0000, k, 0x100_0000);
}

/// The bytes of datagrams add up.
pub proof fn lemma_total_adds(a: Seq<Bytes>, b: Seq<Bytes>)
    ensures
        total_len(a + b) == total_len(a) + total_len(b),
        b.len() == 1 ==> total_len(b) == b[0].seq().len(),
    decreases b.len(),
{
    if b.len() == 0 {
        assert(a + b =~= a);
    } else {
        lemma_total_adds(a, b.drop_last());
        assert((a + b).drop_last() =~= a + b.drop_last());
        if b.len() == 1 {
            assert(b.drop_last() =~= Seq::empty());
        }
    }
}

} // verus!
