//! Defragmentation: the parts of a split message are collected until it is whole.
use std::collections::VecDeque;

use bytes::{Bytes, BytesMut};
use lru::LruCache;
use vstd::prelude::*;

use crate::buf::Contents;
use crate::codec::decoder::parts::{
    cache_cap, cache_entry, cache_items, cache_len, cache_peek, cache_pop, items_view, items_wf,
    joined, lemma_lookup_view, lemma_others_view, lemma_parts_view_insert, lookup, merge_parts, merged,
    new_cache, others, parts_view, without, FramePart, PartQueue,
};
use crate::errors::{CodecError, PartedError};
use crate::packet::connected::frame::{same_frame, Fragment, Frame};
use crate::packet::connected::frame_set::{frames_view, FrameSet};
use crate::sorted_queue::{
    insert_all, insert_sorted, lemma_insert_sorted, lemma_slot, slot, sorted, Keyed, SortedQueue,
};
use crate::uint24::{number_range, u24};

verus! {

/// A queue of sequence numbers, the least one first.
pub type SeqQueue = SortedQueue<u24>;

/// Room for the frames that are ready.
pub const DEFAULT_DEFRAGMENT_BUF_SIZE: usize = 512;

/// What the layer holds: the parts that wait for others, by the message they belong to, and the
/// frames that are ready.
pub ghost struct Collected {
    pub parts: Seq<(u16, Seq<FramePart<Seq<u8>>>)>,
    pub ready: Seq<FrameSet<Frame<Seq<u8>>>>,
}

/// Why a part is refused, if it is. A limit of 0 stands for none.
pub open spec fn refusal(fragment: Fragment, limit_size: u32) -> Option<PartedError> {
    if fragment.parted_index >= fragment.parted_size {
        Some(
            PartedError::IndexOutOfRange {
                parted_index: fragment.parted_index,
                parted_size: fragment.parted_size,
            },
        )
    } else if limit_size != 0 && fragment.parted_size > limit_size {
        Some(PartedError::SizeExceeded { parted_size: fragment.parted_size, limit_size })
    } else {
        None
    }
}

/// The parts of a message that wait for others.
pub open spec fn waiting_parts(parts: Seq<(u16, Seq<FramePart<Seq<u8>>>)>, id: u16) -> Seq<
    FramePart<Seq<u8>>,
> {
    match lookup(parts, id) {
        Some(ps) => ps,
        None => Seq::empty(),
    }
}

/// The parts of the message of `f`, `f` among them.
pub open spec fn gathered(
    parts: Seq<(u16, Seq<FramePart<Seq<u8>>>)>,
    fragment: Fragment,
    f: Frame<Seq<u8>>,
) -> Seq<FramePart<Seq<u8>>> {
    insert_sorted(
        waiting_parts(parts, fragment.parted_id),
        FramePart { parted_index: fragment.parted_index, frame: f },
    )
}

/// The parts of the message of `f`, `f` among them once.
pub open spec fn gathered_once(
    parts: Seq<(u16, Seq<FramePart<Seq<u8>>>)>,
    fragment: Fragment,
    f: Frame<Seq<u8>>,
) -> Seq<FramePart<Seq<u8>>> {
    let before = waiting_parts(parts, fragment.parted_id);
    if before.contains(FramePart { parted_index: fragment.parted_index, frame: f }) {
        before
    } else {
        gathered(parts, fragment, f)
    }
}

/// What the layer holds once `ps` are the parts of a message. It is ready as soon as there are as
/// many parts as it has.
pub open spec fn with_parts(
    c: Collected,
    cap: nat,
    seq_num: u24,
    fragment: Fragment,
    ps: Seq<FramePart<Seq<u8>>>,
) -> Collected {
    let rest = others(c.parts, cap, fragment.parted_id);
    if ps.len() < fragment.parted_size {
        Collected { parts: seq![(fragment.parted_id, ps)] + rest, ..c }
    } else {
        Collected { parts: rest, ready: c.ready.push(FrameSet { seq_num, set: merged(ps) }) }
    }
}

/// What the layer holds after one more frame, and why the frame is refused, if it is.
pub open spec fn collect_one(
    c: Collected,
    cap: nat,
    limit_size: u32,
    seq_num: u24,
    f: Frame<Seq<u8>>,
) -> (Collected, Option<PartedError>) {
    match f.fragment {
        None => (Collected { ready: c.ready.push(FrameSet { seq_num, set: f }), ..c }, None),
        Some(fragment) => match refusal(fragment, limit_size) {
            Some(e) => (c, Some(e)),
            None => {
                let ps = gathered(c.parts, fragment, f);
                (with_parts(c, cap, seq_num, fragment, ps), None)
            },
        },
    }
}

/// The same, where a part that waits already does not count again.
pub open spec fn collect_once(
    c: Collected,
    cap: nat,
    limit_size: u32,
    seq_num: u24,
    f: Frame<Seq<u8>>,
) -> (Collected, Option<PartedError>) {
    match f.fragment {
        None => (Collected { ready: c.ready.push(FrameSet { seq_num, set: f }), ..c }, None),
        Some(fragment) => match refusal(fragment, limit_size) {
            Some(e) => (c, Some(e)),
            None => {
                let ps = gathered_once(c.parts, fragment, f);
                (with_parts(c, cap, seq_num, fragment, ps), None)
            },
        },
    }
}

/// What the layer holds after the frames of a set, up to the first one that is refused, and why
/// that one is, where a part that waits already does not count again.
pub open spec fn collect_all_once(
    c: Collected,
    cap: nat,
    limit_size: u32,
    seq_num: u24,
    fs: Seq<Frame<Seq<u8>>>,
) -> (Collected, Option<PartedError>)
    decreases fs.len(),
{
    if fs.len() == 0 {
        (c, None)
    } else {
        let before = collect_all_once(c, cap, limit_size, seq_num, fs.drop_last());
        if before.1 is Some {
            before
        } else {
            collect_once(before.0, cap, limit_size, seq_num, fs.last())
        }
    }
}

/// What the layer holds after the frames of a set, up to the first one that is refused, and why
/// that one is.
pub open spec fn collect_all(
    c: Collected,
    cap: nat,
    limit_size: u32,
    seq_num: u24,
    fs: Seq<Frame<Seq<u8>>>,
) -> (Collected, Option<PartedError>)
    decreases fs.len(),
{
    if fs.len() == 0 {
        (c, None)
    } else {
        let before = collect_all(c, cap, limit_size, seq_num, fs.drop_last());
        if before.1 is Some {
            before
        } else {
            collect_one(before.0, cap, limit_size, seq_num, fs.last())
        }
    }
}

/// What the layer holds after frame sets, up to the first one with a frame that is refused, and
/// why that frame is. A frame set is given by its number and its frames.
pub open spec fn collect_sets(
    start: Collected,
    cap: nat,
    limit_size: u32,
    sets: Seq<(u24, Seq<Frame<Seq<u8>>>)>,
) -> (Collected, Option<PartedError>)
    decreases sets.len(),
{
    if sets.len() == 0 {
        (start, None)
    } else {
        let before = collect_sets(start, cap, limit_size, sets.drop_last());
        if before.1 is Some {
            before
        } else {
            collect_all(before.0, cap, limit_size, sets.last().0, sets.last().1)
        }
    }
}

/// What a run of single frames holds.
pub open spec fn singles_view<B: Contents>(s: Seq<FrameSet<Frame<B>>>) -> Seq<
    FrameSet<Frame<Seq<u8>>>,
> {
    Seq::new(s.len(), |i: int| FrameSet { seq_num: s[i].seq_num, set: s[i].set@ })
}

/// How a layer takes in a frame set. A set without faults is acknowledged, and those that should
/// have come before it are asked for. A part whose place cannot be is asked for again, maybe bits
/// flipped on the way; one of a message with too many parts is acknowledged, so that it is not
/// sent again. `before` and `after` are the numbers to acknowledge and those to ask for.
pub open spec fn accepted(
    old_layer: DeFragment,
    new_layer: DeFragment,
    seq_num: u24,
    fs: Seq<Frame<Seq<u8>>>,
    before: (Seq<u24>, Seq<u24>),
    after: (Seq<u24>, Seq<u24>),
    r: Result<(), CodecError>,
) -> bool {
    let (c, e) = collect_all(
        old_layer.collected(),
        old_layer.cap(),
        old_layer.limit_size,
        seq_num,
        fs,
    );
    let read = old_layer.seq_num_read_index;
    &&& new_layer.cap() == old_layer.cap()
    &&& new_layer.limit_size == old_layer.limit_size
    &&& new_layer.collected() == c
    &&& match e {
        Some(e) => {
            &&& r == Err::<(), CodecError>(CodecError::PartedFrame(e))
            &&& new_layer.seq_num_read_index == read
            &&& after.0 == (if e is SizeExceeded {
                insert_sorted(before.0, seq_num)
            } else {
                before.0
            })
            &&& after.1 == (if e is IndexOutOfRange {
                insert_sorted(before.1, seq_num)
            } else {
                before.1
            })
        },
        None => {
            &&& r == Ok::<(), CodecError>(())
            &&& new_layer.seq_num_read_index == (if read.0 <= seq_num.0 {
                seq_num.succ()
            } else {
                read
            })
            &&& after.0 == insert_sorted(before.0, seq_num)
            &&& after.1 == insert_all(before.1, number_range(read, seq_num))
        },
    }
}

/// The frames without the numbers of the sets that they came in.
pub open spec fn bare_frames(s: Seq<FrameSet<Frame<Seq<u8>>>>) -> Seq<Frame<Seq<u8>>> {
    Seq::new(s.len(), |i: int| s[i].set)
}

/// What is ready is passed on in one set, where there is anything.
pub open spec fn passed_on(
    r: Result<Option<FrameSet<Vec<Frame<Bytes>>>>, CodecError>,
    seq_num: u24,
    ready: Seq<FrameSet<Frame<Seq<u8>>>>,
) -> bool {
    if ready.len() == 0 {
        r matches Ok(None)
    } else {
        r matches Ok(Some(set)) && set.seq_num == seq_num && frames_view(set.set@) == bare_frames(
            ready,
        )
    }
}

/// The defragmentation layer.
pub struct DeFragment {
    /// The most parts that a message may have; 0 means no limit.
    pub limit_size: u32,
    /// The parts that wait for others. A peer that starts ever new messages makes the one drop
    /// out that was not added to for the longest time.
    pub parts: LruCache<u16, PartQueue>,
    /// The frames that are ready.
    pub buffer: VecDeque<FrameSet<Frame<Bytes>>>,
    /// The sequence number that is expected next.
    pub seq_num_read_index: u24,
}

impl DeFragment {
    /// There is room for at least one message, and the parts of each are in order.
    pub open spec fn wf(self) -> bool {
        items_wf(cache_items(self.parts)) && cache_cap(self.parts) > 0
    }

    /// What the layer holds.
    pub open spec fn collected(self) -> Collected {
        Collected {
            parts: items_view(cache_items(self.parts)),
            ready: singles_view(self.buffer@),
        }
    }

    /// For how many messages the layer collects parts at a time.
    pub open spec fn cap(self) -> nat {
        cache_cap(self.parts)
    }

    /// A layer that takes messages of up to `limit_size` parts, of `limit_parted` messages at a
    /// time.
    pub fn new(limit_size: u32, limit_parted: usize) -> (r: DeFragment)
        requires
            0 < limit_parted <= isize::MAX / 64,
        ensures
            r.wf(),
            r.limit_size == limit_size,
            r.cap() == limit_parted,
            r.collected() == (Collected { parts: Seq::empty(), ready: Seq::empty() }),
            r.seq_num_read_index == u24(0),
    {
        let r = DeFragment {
            limit_size,
            parts: new_cache(limit_parted),
            buffer: VecDeque::with_capacity(DEFAULT_DEFRAGMENT_BUF_SIZE),
            seq_num_read_index: u24(0),
        };
        assert(r.collected().parts =~= Seq::empty());
        assert(r.collected().ready =~= Seq::empty());
        r
    }

    /// For how many messages there are parts.
    pub fn pending_messages(&self) -> (r: usize)
        ensures
            r == self.collected().parts.len(),
    {
        cache_len(&self.parts)
    }

    /// How many parts of a message there are, where there are some.
    pub fn pending_parts(&self, parted_id: u16) -> (r: Option<usize>)
        ensures
            match lookup(self.collected().parts, parted_id) {
                Some(ps) => r == Some(ps.len() as usize) && ps.len() <= usize::MAX,
                None => r is None,
            },
    {
        proof {
            lemma_lookup_view(cache_items(self.parts), parted_id);
        }
        match cache_peek(&self.parts, parted_id) {
            Some(queue) => Some(queue.len()),
            None => None,
        }
    }

    /// The next frame that is ready.
    pub fn next_ready(&mut self) -> (r: Option<FrameSet<Frame<Bytes>>>)
        requires
            old(self).wf(),
        ensures
            final(self).wf(),
            final(self).collected().parts == old(self).collected().parts,
            final(self).cap() == old(self).cap(),
            final(self).limit_size == old(self).limit_size,
            final(self).seq_num_read_index == old(self).seq_num_read_index,
            match r {
                Some(set) => {
                    let ready = old(self).collected().ready;
                    &&& old(self).buffer@.len() > 0
                    &&& set == old(self).buffer@[0]
                    &&& final(self).buffer@ == old(self).buffer@.skip(1)
                    &&& ready.len() > 0
                    &&& ready[0] == (FrameSet { seq_num: set.seq_num, set: set.set@ })
                    &&& final(self).collected().ready == ready.skip(1)
                },
                None => old(self).collected().ready.len() == 0 && final(self).buffer@ == old(
                    self,
                ).buffer@,
            },
    {
        let r = self.buffer.pop_front();
        assert(r is Some ==> self.buffer@ =~= old(self).buffer@.skip(1));
        assert(r is Some ==> self.collected().ready =~= old(self).collected().ready.skip(1));
        r
    }

    /// Takes in one frame. Where `once` is set, a part that waits already does not count again.
    fn collect(&mut self, seq_num: u24, frame: Frame<BytesMut>, once: bool) -> (r: Result<
        (),
        PartedError,
    >)
        requires
            old(self).wf(),
        ensures
            final(self).wf(),
            final(self).cap() == old(self).cap(),
            final(self).limit_size == old(self).limit_size,
            final(self).seq_num_read_index == old(self).seq_num_read_index,
            ({
                let start = old(self).collected();
                let cap = old(self).cap();
                let (c, e) = if once {
                    collect_once(start, cap, old(self).limit_size, seq_num, frame@)
                } else {
                    collect_one(start, cap, old(self).limit_size, seq_num, frame@)
                };
                &&& final(self).collected() == c
                &&& r == (match e {
                    Some(e) => Err::<(), PartedError>(e),
                    None => Ok::<(), PartedError>(()),
                })
            }),
    {
        let ghost ready = self.collected().ready;
        let ghost view = frame@;
        let fragment = match frame.fragment {
            Some(fragment) => fragment,
            None => {
                self.buffer.push_back(FrameSet { seq_num, set: frame.freeze() });
                assert(self.collected().ready =~= ready.push(FrameSet { seq_num, set: view }));
                return Ok(());
            },
        };
        let Fragment { parted_size, parted_id, parted_index } = fragment;
        // promise that parted_index is always less than parted_size
        if parted_index >= parted_size {
            return Err(PartedError::IndexOutOfRange { parted_index, parted_size });
        }
        if self.limit_size != 0 && parted_size > self.limit_size {
            return Err(PartedError::SizeExceeded { parted_size, limit_size: self.limit_size });
        }
        let ghost items = cache_items(self.parts);
        let ghost rest = others(items, cache_cap(self.parts), parted_id);
        let part = FramePart { parted_index, frame };
        proof {
            lemma_lookup_view(items, parted_id);
            lemma_others_view(items, cache_cap(self.parts), parted_id);
        }
        let queue = cache_entry(&mut self.parts, parted_id);
        let ghost before = queue@;
        proof {
            lemma_parts_view_insert(before, part);
            if lookup(items, parted_id) is None {
                assert(parts_view(before) =~= Seq::empty());
            }
        }
        if !(once && part_waits(queue, &part)) {
            queue.push(part);
        }
        let complete = queue.len() >= parted_size as usize;
        let ghost ps = queue@;
        let ghost added = cache_items(self.parts);
        proof {
            let parts = old(self).collected().parts;
            assert(parts_view(ps) == if once {
                gathered_once(parts, fragment, view)
            } else {
                gathered(parts, fragment, view)
            });
            assert(added[0].0 == parted_id);
            assert(added[0].1@ == ps);
            assert forall|i: int| 0 <= i < added.len() implies (#[trigger] added[i]).1.wf() by {
                if i > 0 {
                    assert(added[i] == rest[i - 1]);
                }
            }
            assert(items_view(added) =~= seq![(parted_id, parts_view(ps))] + items_view(rest));
        }
        if !complete {
            return Ok(());
        }
        proof {
            assert(added.drop_first() =~= rest);
        }
        let whole = cache_pop(&mut self.parts, parted_id).unwrap();
        let frame = merge_parts(whole).freeze();
        self.buffer.push_back(FrameSet { seq_num, set: frame });
        assert(self.collected().ready =~= ready.push(
            FrameSet { seq_num, set: merged(parts_view(ps)) },
        ));
        Ok(())
    }

    /// Takes in a frame set and passes on what is ready at once, if anything is. A part that
    /// waits already does not count again. Where a frame is refused, nothing of the set is passed
    /// on.
    pub fn defragment_set(&mut self, frame_set: FrameSet<Vec<Frame<BytesMut>>>) -> (r: Result<
        Option<FrameSet<Vec<Frame<Bytes>>>>,
        CodecError,
    >)
        requires
            old(self).wf(),
            old(self).buffer@.len() == 0,
        ensures
            final(self).wf(),
            final(self).buffer@.len() == 0,
            final(self).cap() == old(self).cap(),
            final(self).limit_size == old(self).limit_size,
            final(self).seq_num_read_index == old(self).seq_num_read_index,
            ({
                let (c, e) = collect_all_once(
                    old(self).collected(),
                    old(self).cap(),
                    old(self).limit_size,
                    frame_set.seq_num,
                    frames_view(frame_set.set@),
                );
                &&& final(self).collected().parts == c.parts
                &&& match e {
                    Some(e) => r matches Err(err) && err == CodecError::PartedFrame(e),
                    None => passed_on(r, frame_set.seq_num, c.ready),
                }
            }),
    {
        let ghost start = self.collected();
        let ghost cap = self.cap();
        let ghost limit = self.limit_size;
        let seq_num = frame_set.seq_num;
        let ghost fs = frames_view(frame_set.set@);
        assert(fs.take(0) =~= Seq::empty());
        for frame in iter: frame_set.set.into_iter()
            invariant
                self.wf(),
                fs == frames_view(iter.seq()),
                self.cap() == cap,
                self.limit_size == limit,
                self.seq_num_read_index == old(self).seq_num_read_index,
                start == old(self).collected(),
                cap == old(self).cap(),
                limit == old(self).limit_size,
                seq_num == frame_set.seq_num,
                fs == frames_view(frame_set.set@),
                collect_all_once(start, cap, limit, seq_num, fs.take(iter.index() as int)) == (
                    self.collected(),
                    None::<PartedError>,
                ),
        {
            let ghost i = iter.index() as int;
            proof {
                assert(frame@ == fs[i]);
                assert(fs.take(i + 1).drop_last() =~= fs.take(i));
                assert(fs.take(i + 1).last() == fs[i]);
            }
            if let Err(e) = self.collect(seq_num, frame, true) {
                proof {
                    lemma_collect_once_stops(start, cap, limit, seq_num, fs, i + 1);
                }
                self.buffer.clear();
                return Err(CodecError::PartedFrame(e));
            }
        }
        assert(fs.take(fs.len() as int) =~= fs);
        let ghost ready = self.collected().ready;
        let ghost all = self.buffer@;
        let mut frames: Vec<Frame<Bytes>> = Vec::new();
        assert(all.skip(0) =~= all);
        while self.buffer.len() > 0
            invariant
                self.wf(),
                self.cap() == cap,
                self.limit_size == limit,
                self.seq_num_read_index == old(self).seq_num_read_index,
                self.collected().parts == collect_all_once(start, cap, limit, seq_num, fs).0.parts,
                ready == singles_view(all),
                frames@.len() <= all.len(),
                self.buffer@ == all.skip(frames@.len() as int),
                forall|i: int| 0 <= i < frames@.len() ==> (#[trigger] frames@[i])@ == ready[i].set,
            decreases self.buffer@.len(),
        {
            let ghost n = frames@.len() as int;
            let next = self.buffer.pop_front().unwrap();
            assert(all.skip(n).subrange(1, all.skip(n).len() as int) =~= all.skip(n + 1));
            assert(next == all[n]);
            frames.push(next.set);
        }
        if frames.len() == 0 {
            return Ok(None);
        }
        assert(frames_view(frames@) =~= bare_frames(ready));
        Ok(Some(FrameSet { seq_num, set: frames }))
    }

    /// Takes in a frame set.
    pub fn accept(
        &mut self,
        frame_set: FrameSet<Vec<Frame<BytesMut>>>,
        acks: &mut SeqQueue,
        nacks: &mut SeqQueue,
    ) -> (r: Result<(), CodecError>)
        requires
            old(self).wf(),
            old(acks).wf(),
            old(nacks).wf(),
        ensures
            final(self).wf(),
            final(acks).wf(),
            final(nacks).wf(),
            accepted(
                *old(self),
                *final(self),
                frame_set.seq_num,
                frames_view(frame_set.set@),
                (old(acks)@, old(nacks)@),
                (final(acks)@, final(nacks)@),
                r,
            ),
    {
        let ghost start = self.collected();
        let ghost cap = self.cap();
        let ghost limit = self.limit_size;
        let seq_num = frame_set.seq_num;
        let ghost fs = frames_view(frame_set.set@);
        assert(fs.take(0) =~= Seq::empty());
        for frame in iter: frame_set.set.into_iter()
            invariant
                self.wf(),
                acks.wf(),
                nacks.wf(),
                acks@ == old(acks)@,
                nacks@ == old(nacks)@,
                fs == frames_view(iter.seq()),
                self.cap() == cap,
                self.limit_size == limit,
                self.seq_num_read_index == old(self).seq_num_read_index,
                start == old(self).collected(),
                cap == old(self).cap(),
                limit == old(self).limit_size,
                seq_num == frame_set.seq_num,
                fs == frames_view(frame_set.set@),
                collect_all(start, cap, limit, seq_num, fs.take(iter.index() as int)) == (
                    self.collected(),
                    None::<PartedError>,
                ),
        {
            let ghost i = iter.index() as int;
            proof {
                assert(frame@ == fs[i]);
                assert(fs.take(i + 1).drop_last() =~= fs.take(i));
                assert(fs.take(i + 1).last() == fs[i]);
            }
            match self.collect(seq_num, frame, false) {
                Ok(()) => {},
                Err(e) => {
                    proof {
                        lemma_collect_stops(start, cap, limit, seq_num, fs, i + 1);
                    }
                    match e {
                        PartedError::IndexOutOfRange { .. } => {
                            nacks.push(seq_num);
                        },
                        PartedError::SizeExceeded { .. } => {
                            acks.push(seq_num);
                        },
                    }
                    return Err(CodecError::PartedFrame(e));
                },
            }
        }
        assert(fs.take(fs.len() as int) =~= fs);
        acks.push(seq_num);
        let read = self.seq_num_read_index;
        if read.0 <= seq_num.0 {
            self.seq_num_read_index = seq_num.next();
        }
        send_range(nacks, read, seq_num);
        Ok(())
    }
}

/// Whether the part is among those that wait.
fn part_waits(queue: &PartQueue, part: &FramePart<BytesMut>) -> (r: bool)
    ensures
        r == parts_view(queue@).contains(part@),
{
    let ghost ps = parts_view(queue@);
    let mut i: usize = 0;
    while i < queue.len()
        invariant
            i <= queue@.len(),
            ps == parts_view(queue@),
            forall|k: int| 0 <= k < i ==> #[trigger] ps[k] != part@,
        decreases queue@.len() - i,
    {
        let other = &queue.items[i];
        assert(other@ == ps[i as int]);
        if other.parted_index == part.parted_index && same_frame(&other.frame, &part.frame) {
            return true;
        }
        i = i + 1;
    }
    false
}

/// Puts the numbers from `from` up to, but not including, `to` into the queue.
pub(crate) fn send_range(queue: &mut SeqQueue, from: u24, to: u24)
    requires
        old(queue).wf(),
    ensures
        final(queue).wf(),
        final(queue)@ == insert_all(old(queue)@, number_range(from, to)),
{
    let ghost all = number_range(from, to);
    let mut i: u32 = from.0;
    assert(all.take(0) =~= Seq::empty());
    while i < to.0
        invariant
            queue.wf(),
            all == number_range(from, to),
            from.0 <= to.0 ==> from.0 <= i <= to.0,
            from.0 > to.0 ==> i == from.0,
            queue@ == insert_all(old(queue)@, all.take(i - from.0)),
        decreases to.0 - i,
    {
        proof {
            let n = i - from.0;
            assert(all.take(n + 1).drop_last() =~= all.take(n));
            assert(all.take(n + 1).last() == u24(i));
        }
        queue.push(u24(i));
        i = i + 1;
    }
    assert(all.take(i - from.0) =~= all);
}

/// A frame that can be passed on: there is a body, and its place on a channel fits in 24 bits.
pub open spec fn deliverable(f: Frame<Seq<u8>>) -> bool {
    f.body.len() > 0 && (f.ordered matches Some(o) ==> o.frame_index.wf())
}

/// Every part of every message, and every frame that is ready, can be passed on.
pub open spec fn all_deliverable(c: Collected) -> bool {
    &&& forall|i: int, j: int|
        0 <= i < c.parts.len() && 0 <= j < c.parts[i].1.len() ==> deliverable(
            (#[trigger] c.parts[i].1[j]).frame,
        )
    &&& forall|i: int| 0 <= i < c.ready.len() ==> deliverable((#[trigger] c.ready[i]).set)
}

proof fn lemma_lookup_member<V>(s: Seq<(u16, V)>, k: u16)
    ensures
        lookup(s, k) matches Some(v) ==> exists|i: int|
            0 <= i < s.len() && (#[trigger] s[i]).1 == v,
        forall|i: int|
            0 <= i < without(s, k).len() ==> s.contains(#[trigger] without(s, k)[i]),
    decreases s.len(),
{
    if s.len() > 0 {
        let tail = s.drop_first();
        lemma_lookup_member(tail, k);
        if s[0].0 == k {
            assert(s[0].1 == lookup(s, k)->Some_0);
            assert forall|i: int| 0 <= i < without(s, k).len() implies s.contains(
                #[trigger] without(s, k)[i],
            ) by {
                assert(s[i + 1] == without(s, k)[i]);
            }
        } else {
            if let Some(v) = lookup(tail, k) {
                let i = choose|i: int| 0 <= i < tail.len() && (#[trigger] tail[i]).1 == v;
                assert(s[i + 1].1 == v);
            }
            assert forall|i: int| 0 <= i < without(s, k).len() implies s.contains(
                #[trigger] without(s, k)[i],
            ) by {
                if i == 0 {
                    assert(s[0] == without(s, k)[0]);
                } else {
                    let x = without(tail, k)[i - 1];
                    assert(without(s, k)[i] == x);
                    assert(tail.contains(x));
                    let j = choose|j: int| 0 <= j < tail.len() && tail[j] == x;
                    assert(s[j + 1] == x);
                }
            }
        }
    }
}

proof fn lemma_joined_len(ps: Seq<FramePart<Seq<u8>>>)
    requires
        ps.len() > 0,
        forall|j: int| 0 <= j < ps.len() ==> deliverable((#[trigger] ps[j]).frame),
    ensures
        joined(ps).len() > 0,
{
    assert(deliverable(ps[ps.len() - 1].frame));
}

proof fn lemma_collect_deliverable(
    c: Collected,
    cap: nat,
    limit_size: u32,
    seq_num: u24,
    f: Frame<Seq<u8>>,
)
    requires
        all_deliverable(c),
        deliverable(f),
        cap > 0,
        forall|i: int| 0 <= i < c.parts.len() ==> sorted((#[trigger] c.parts[i]).1),
    ensures
        all_deliverable(collect_one(c, cap, limit_size, seq_num, f).0),
        forall|i: int|
            0 <= i < collect_one(c, cap, limit_size, seq_num, f).0.parts.len() ==> sorted(
                (#[trigger] collect_one(c, cap, limit_size, seq_num, f).0.parts[i]).1,
            ),
{
    let after = collect_one(c, cap, limit_size, seq_num, f).0;
    if let Some(fragment) = f.fragment {
        if refusal(fragment, limit_size) is None {
            let id = fragment.parted_id;
            let ps = gathered(c.parts, fragment, f);
            let rest = others(c.parts, cap, id);
            let part = FramePart { parted_index: fragment.parted_index, frame: f };
            lemma_lookup_member(c.parts, id);
            let before = match lookup(c.parts, id) {
                Some(ps) => ps,
                None => Seq::empty(),
            };
            assert(sorted(before) && forall|j: int|
                0 <= j < before.len() ==> deliverable((#[trigger] before[j]).frame)) by {
                if let Some(v) = lookup(c.parts, id) {
                    let i = choose|i: int| 0 <= i < c.parts.len() && (#[trigger] c.parts[i]).1 == v;
                    assert(c.parts[i].1 == before);
                }
            }
            lemma_insert_sorted(before, part);
            lemma_slot(before, part.spec_key());
            assert forall|j: int| 0 <= j < ps.len() implies deliverable(
                (#[trigger] ps[j]).frame,
            ) by {
                let at = slot(before, part.spec_key());
                if j < at {
                    assert(ps[j] == before[j]);
                } else if j > at {
                    assert(ps[j] == before[j - 1]);
                }
            }
            assert forall|i: int| 0 <= i < rest.len() implies c.parts.contains(
                #[trigger] rest[i],
            ) by {
                if lookup(c.parts, id) is None {
                    assert(rest[i] == c.parts[i]);
                }
            }
            assert forall|i: int| 0 <= i < after.parts.len() implies sorted(
                (#[trigger] after.parts[i]).1,
            ) && forall|j: int|
                0 <= j < after.parts[i].1.len() ==> deliverable(
                    (#[trigger] after.parts[i].1[j]).frame,
                ) by {
                if ps.len() < fragment.parted_size {
                    if i > 0 {
                        assert(after.parts[i] == rest[i - 1]);
                        assert(c.parts.contains(rest[i - 1]));
                    }
                } else {
                    assert(after.parts[i] == rest[i]);
                    assert(c.parts.contains(rest[i]));
                }
            }
            if ps.len() >= fragment.parted_size {
                lemma_joined_len(ps);
                assert(deliverable(ps[0].frame));
                assert(deliverable(merged(ps)));
            }
        }
    }
}

/// What can be passed on stays so while it is collected.
pub(crate) proof fn lemma_all_deliverable(
    c: Collected,
    cap: nat,
    limit_size: u32,
    seq_num: u24,
    fs: Seq<Frame<Seq<u8>>>,
)
    requires
        all_deliverable(c),
        cap > 0,
        forall|i: int| 0 <= i < c.parts.len() ==> sorted((#[trigger] c.parts[i]).1),
        forall|i: int| 0 <= i < fs.len() ==> deliverable(#[trigger] fs[i]),
    ensures
        all_deliverable(collect_all(c, cap, limit_size, seq_num, fs).0),
        forall|i: int|
            0 <= i < collect_all(c, cap, limit_size, seq_num, fs).0.parts.len() ==> sorted(
                (#[trigger] collect_all(c, cap, limit_size, seq_num, fs).0.parts[i]).1,
            ),
    decreases fs.len(),
{
    if fs.len() > 0 {
        let before = collect_all(c, cap, limit_size, seq_num, fs.drop_last());
        lemma_all_deliverable(c, cap, limit_size, seq_num, fs.drop_last());
        if before.1 is None {
            assert(deliverable(fs[fs.len() - 1]));
            lemma_collect_deliverable(before.0, cap, limit_size, seq_num, fs.last());
        }
    }
}

impl DeFragment {
    /// The parts of each message are in order.
    pub(crate) proof fn lemma_parts_sorted(&self)
        requires
            self.wf(),
        ensures
            forall|i: int|
                0 <= i < self.collected().parts.len() ==> sorted(
                    (#[trigger] self.collected().parts[i]).1,
                ),
    {
        let items = cache_items(self.parts);
        assert forall|i: int| 0 <= i < self.collected().parts.len() implies sorted(
            (#[trigger] self.collected().parts[i]).1,
        ) by {
            assert(items[i].1.wf());
            let s = items[i].1@;
            let v = parts_view(s);
            assert forall|a: int, b: int| 0 <= a < b < v.len() implies (#[trigger] v[a]).spec_key()
                <= (#[trigger] v[b]).spec_key() by {
                assert(s[a].spec_key() <= s[b].spec_key());
            }
        }
    }
}

/// A part that arrives again while its message waits for others changes nothing, where a part
/// counts once.
pub proof fn lemma_part_counts_once(
    c: Collected,
    cap: nat,
    limit_size: u32,
    seq_num: u24,
    again: u24,
    f: Frame<Seq<u8>>,
)
    requires
        forall|i: int| 0 <= i < c.parts.len() ==> sorted((#[trigger] c.parts[i]).1),
        f.fragment matches Some(fragment) && refusal(fragment, limit_size) is None
            && gathered_once(c.parts, fragment, f).len() < fragment.parted_size,
    ensures
        ({
            let (after, e) = collect_once(c, cap, limit_size, seq_num, f);
            &&& e is None
            &&& collect_once(after, cap, limit_size, again, f) == (after, None::<PartedError>)
        }),
{
    let fragment = f.fragment->Some_0;
    let id = fragment.parted_id;
    let part = FramePart { parted_index: fragment.parted_index, frame: f };
    let before = waiting_parts(c.parts, id);
    let ps = gathered_once(c.parts, fragment, f);
    let rest = others(c.parts, cap, id);
    let after = collect_once(c, cap, limit_size, seq_num, f).0;
    if !before.contains(part) {
        lemma_lookup_member(c.parts, id);
        if let Some(v) = lookup(c.parts, id) {
            let i = choose|i: int| 0 <= i < c.parts.len() && (#[trigger] c.parts[i]).1 == v;
            assert(sorted(c.parts[i].1));
        }
        lemma_slot(before, part.spec_key());
        assert(ps[slot(before, part.spec_key())] == part);
    }
    assert(ps.contains(part));
    assert(after.parts == seq![(id, ps)] + rest);
    assert(after.parts.drop_first() =~= rest);
}

proof fn lemma_collect_once_stops(
    c: Collected,
    cap: nat,
    limit_size: u32,
    seq_num: u24,
    fs: Seq<Frame<Seq<u8>>>,
    n: int,
)
    requires
        0 <= n <= fs.len(),
        collect_all_once(c, cap, limit_size, seq_num, fs.take(n)).1 is Some,
    ensures
        collect_all_once(c, cap, limit_size, seq_num, fs) == collect_all_once(
            c,
            cap,
            limit_size,
            seq_num,
            fs.take(n),
        ),
    decreases fs.len() - n,
{
    if n == fs.len() {
        assert(fs.take(n) =~= fs);
    } else {
        assert(fs.take(n + 1).drop_last() =~= fs.take(n));
        lemma_collect_once_stops(c, cap, limit_size, seq_num, fs, n + 1);
    }
}

/// Nothing is collected behind a frame that is refused.
proof fn lemma_collect_stops(
    c: Collected,
    cap: nat,
    limit_size: u32,
    seq_num: u24,
    fs: Seq<Frame<Seq<u8>>>,
    n: int,
)
    requires
        0 <= n <= fs.len(),
        collect_all(c, cap, limit_size, seq_num, fs.take(n)).1 is Some,
    ensures
        collect_all(c, cap, limit_size, seq_num, fs) == collect_all(
            c,
            cap,
            limit_size,
            seq_num,
            fs.take(n),
        ),
    decreases fs.len() - n,
{
    if n == fs.len() {
        assert(fs.take(n) =~= fs);
    } else {
        assert(fs.take(n + 1).drop_last() =~= fs.take(n));
        lemma_collect_stops(c, cap, limit_size, seq_num, fs, n + 1);
    }
}

} // verus!
