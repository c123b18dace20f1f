//! Deduplication: a frame that arrived before is dropped.
use bytes::BytesMut;
use vstd::prelude::*;

use crate::bit_queue::BitVecQueue;
use crate::buf::Contents;
use crate::packet::connected::frame::Frame;
use crate::packet::connected::frame_set::{frames_view, FrameSet};
use crate::uint24::{u24, U24_RANGE};

verus! {

/// Room for the bits that a window starts with.
pub const DEFAULT_BIT_VEC_CAP: usize = 16384;

/// The deduplication window. For each connection, the maximum size is
/// 2 ^ (8 * 3) / 8 / 1024 / 1024 = 2MB.
#[derive(Debug)]
pub struct DuplicateWindow {
    /// First unreceived number, starts at 0. It is just past the last number once all arrived.
    pub first_unreceived: u24,
    /// The received status of the numbers from `first_unreceived` on: `true` is received and
    /// `false` is unreceived.
    pub received_status: BitVecQueue,
}

impl DuplicateWindow {
    /// The window covers 24-bit numbers only, it starts with a number that did not arrive, and
    /// it ends with one that did.
    pub open spec fn wf(self) -> bool {
        let status = self.received_status@;
        &&& self.received_status.wf()
        &&& self.first_unreceived.0 + status.len() <= U24_RANGE
        &&& status.len() > 0 ==> !status[0] && status.last()
    }

    /// The number `n` arrived.
    pub open spec fn has(self, n: int) -> bool {
        let first = self.first_unreceived.0;
        n < first || (n < first + self.received_status@.len() && self.received_status@[n - first])
    }

    /// The numbers that arrived.
    pub open spec fn received(self) -> Set<u24> {
        Set::new(|n: u24| self.has(n.0 as int))
    }

    /// A window that no number arrived in.
    pub fn new() -> (r: DuplicateWindow)
        ensures
            r.wf(),
            r.received() == Set::<u24>::empty(),
    {
        let r = DuplicateWindow {
            first_unreceived: u24(0),
            received_status: BitVecQueue::new(),
        };
        assert(r.received() =~= Set::<u24>::empty());
        r
    }

    /// A window that no number arrived in, with room for `cap_bits` numbers.
    pub fn with_capacity(cap_bits: usize) -> (r: DuplicateWindow)
        ensures
            r.wf(),
            r.received() == Set::<u24>::empty(),
    {
        let r = DuplicateWindow {
            first_unreceived: u24(0),
            received_status: BitVecQueue::with_capacity(cap_bits),
        };
        assert(r.received() =~= Set::<u24>::empty());
        r
    }

    /// Checks whether a number is duplicated, and takes note that it arrived.
    pub fn duplicate(&mut self, seq_num: u24) -> (r: bool)
        requires
            old(self).wf(),
            seq_num.wf(),
        ensures
            final(self).wf(),
            r == old(self).received().contains(seq_num),
            final(self).received() == old(self).received().insert(seq_num),
            r ==> *final(self) == *old(self),
    {
        if seq_num.0 < self.first_unreceived.0 {
            assert(self.received().insert(seq_num) =~= self.received());
            return true;
        }
        let gap: usize = (seq_num.0 - self.first_unreceived.0) as usize;
        let ghost status = self.received_status@;
        let ghost first = self.first_unreceived.0 as int;
        let len: usize = self.received_status.len();
        if gap < len {
            if self.received_status.get(gap) == Some(true) {
                assert(self.received().insert(seq_num) =~= self.received());
                return true;
            }
            self.received_status.set(gap, true);
        } else {
            let mut i: usize = len;
            while i < gap
                invariant
                    len <= i <= gap < U24_RANGE,
                    self.received_status.wf(),
                    self.received_status@.len() == i,
                    status.len() == len,
                    self.first_unreceived == old(self).first_unreceived,
                    forall|k: int|
                        0 <= k < i ==> (#[trigger] self.received_status@[k]) == (k < len
                            && status[k]),
                decreases gap - i,
            {
                self.received_status.push_back(false);
                i = i + 1;
            }
            self.received_status.push_back(true);
        }
        let ghost marked = *self;
        proof {
            assert forall|n: u24| #[trigger] marked.received().contains(n) == old(
                self,
            ).received().insert(seq_num).contains(n) by {
                assert(marked.has(n.0 as int) == (old(self).has(n.0 as int) || n == seq_num));
            }
            assert(marked.received() =~= old(self).received().insert(seq_num));
        }
        while self.received_status.front() == Some(true)
            invariant
                self.received_status.wf(),
                marked.received() == old(self).received().insert(seq_num),
                self.received() == marked.received(),
                self.first_unreceived.0 + self.received_status@.len() <= U24_RANGE,
                self.received_status@.len() > 0 ==> self.received_status@.last(),
            ensures
                self.received_status@.len() > 0 ==> !self.received_status@[0],
            decreases self.received_status@.len(),
        {
            let ghost before = *self;
            self.received_status.pop_front();
            self.first_unreceived = u24(self.first_unreceived.0 + 1);
            assert(self.received() =~= before.received());
        }
        false
    }
}

/// The frames of `fs` that did not arrive before, where the numbers `seen` did. A frame without
/// a number always passes.
pub open spec fn fresh_frames(seen: Set<u24>, fs: Seq<Frame<Seq<u8>>>) -> Seq<Frame<Seq<u8>>>
    decreases fs.len(),
{
    if fs.len() == 0 {
        Seq::empty()
    } else {
        let before = fresh_frames(seen, fs.drop_last());
        match fs.last().reliable_frame_index {
            Some(n) => if numbers_seen(seen, fs.drop_last()).contains(n) {
                before
            } else {
                before.push(fs.last())
            },
            None => before.push(fs.last()),
        }
    }
}

/// The numbers `seen` and those of the frames `fs`.
pub open spec fn numbers_seen(seen: Set<u24>, fs: Seq<Frame<Seq<u8>>>) -> Set<u24>
    decreases fs.len(),
{
    if fs.len() == 0 {
        seen
    } else {
        let before = numbers_seen(seen, fs.drop_last());
        match fs.last().reliable_frame_index {
            Some(n) => before.insert(n),
            None => before,
        }
    }
}

/// The numbers of all frames fit in 24 bits.
pub open spec fn numbers_wf(fs: Seq<Frame<Seq<u8>>>) -> bool {
    forall|i: int|
        0 <= i < fs.len() ==> ((#[trigger] fs[i]).reliable_frame_index matches Some(n) ==> n.wf())
}

/// The deduplication layer. It should be placed as the first layer to maximise its effect.
#[derive(Debug)]
pub struct Dedup {
    pub window: DuplicateWindow,
}

impl Dedup {
    /// A layer that no frame passed yet.
    pub fn new() -> (r: Dedup)
        ensures
            r.window.wf(),
            r.window.received() == Set::<u24>::empty(),
    {
        Dedup { window: DuplicateWindow::with_capacity(DEFAULT_BIT_VEC_CAP) }
    }

    /// Drops the frames that arrived before. Where no frame is left, nothing is passed on.
    pub fn deduplicate(&mut self, frame_set: FrameSet<Vec<Frame<BytesMut>>>) -> (r: Option<
        FrameSet<Vec<Frame<BytesMut>>>,
    >)
        requires
            old(self).window.wf(),
            numbers_wf(frames_view(frame_set.set@)),
        ensures
            final(self).window.wf(),
            final(self).window.received() == numbers_seen(
                old(self).window.received(),
                frames_view(frame_set.set@),
            ),
            ({
                let fresh = fresh_frames(
                    old(self).window.received(),
                    frames_view(frame_set.set@),
                );
                match r {
                    Some(set) => {
                        &&& set.seq_num == frame_set.seq_num
                        &&& frames_view(set.set@) == fresh
                        &&& fresh.len() > 0
                    },
                    None => fresh.len() == 0,
                }
            }),
    {
        let ghost seen = self.window.received();
        let ghost fs = frames_view(frame_set.set@);
        let seq_num = frame_set.seq_num;
        let mut kept: Vec<Frame<BytesMut>> = Vec::new();
        assert(fs.take(0) =~= Seq::empty());
        assert(frames_view(kept@) =~= Seq::empty());
        for frame in iter: frame_set.set.into_iter()
            invariant
                self.window.wf(),
                numbers_wf(fs),
                fs == frames_view(iter.seq()),
                self.window.received() == numbers_seen(seen, fs.take(iter.index() as int)),
                frames_view(kept@) == fresh_frames(seen, fs.take(iter.index() as int)),
        {
            let ghost i = iter.index() as int;
            let ghost kept_before = kept@;
            assert(frame@ == fs[i]);
            assert(fs[i].reliable_frame_index matches Some(n) ==> n.wf());
            let duplicated = match frame.reliable_frame_index {
                Some(n) => self.window.duplicate(n),
                None => false,
            };
            proof {
                assert(fs.take(i + 1).drop_last() =~= fs.take(i));
                assert(fs.take(i + 1).last() == fs[i]);
            }
            if !duplicated {
                kept.push(frame);
                assert(frames_view(kept@) =~= frames_view(kept_before).push(fs[i]));
            }
        }
        assert(fs.take(fs.len() as int) =~= fs);
        if kept.len() == 0 {
            return None;
        }
        Some(FrameSet { seq_num, set: kept })
    }
}

/// `first_unreceived` is what it says: every number below it arrived, and it did not.
pub proof fn lemma_first_unreceived(w: DuplicateWindow)
    requires
        w.wf(),
    ensures
        !w.has(w.first_unreceived.0 as int),
        forall|n: int| n < w.first_unreceived.0 ==> w.has(n),
{
}

/// Nothing is kept for numbers that arrived without a gap.
pub proof fn lemma_no_gap_no_status(w: DuplicateWindow)
    requires
        w.wf(),
        forall|n: int| w.has(n) ==> n < w.first_unreceived.0,
    ensures
        w.received_status@.len() == 0,
{
    if w.received_status@.len() > 0 {
        assert(w.has(w.first_unreceived.0 + w.received_status@.len() - 1));
    }
}

/// No number passes twice: of frames with numbers, those that pass are new, and their numbers
/// differ from each other.
pub proof fn lemma_fresh_once(seen: Set<u24>, fs: Seq<Frame<Seq<u8>>>)
    ensures
        forall|i: int|
            0 <= i < fresh_frames(seen, fs).len() ==> ((#[trigger] fresh_frames(
                seen,
                fs,
            )[i]).reliable_frame_index matches Some(n) ==> !seen.contains(n) && numbers_seen(
                seen,
                fs,
            ).contains(n)),
        forall|i: int, j: int|
            0 <= i < j < fresh_frames(seen, fs).len() ==> ((#[trigger] fresh_frames(
                seen,
                fs,
            )[i]).reliable_frame_index is Some ==> fresh_frames(seen, fs)[i].reliable_frame_index
                != (#[trigger] fresh_frames(seen, fs)[j]).reliable_frame_index),
        seen.subset_of(numbers_seen(seen, fs)),
    decreases fs.len(),
{
    if fs.len() > 0 {
        lemma_fresh_once(seen, fs.drop_last());
    }
}

/// The number of some frame is `n`.
pub open spec fn has_number(fs: Seq<Frame<Seq<u8>>>, n: u24) -> bool {
    exists|i: int| 0 <= i < fs.len() && (#[trigger] fs[i]).reliable_frame_index == Some(n)
}

proof fn lemma_numbers_seen(seen: Set<u24>, fs: Seq<Frame<Seq<u8>>>, n: u24)
    ensures
        numbers_seen(seen, fs).contains(n) ==> seen.contains(n) || has_number(fs, n),
    decreases fs.len(),
{
    if fs.len() > 0 && numbers_seen(seen, fs).contains(n) {
        let init = fs.drop_last();
        lemma_numbers_seen(seen, init, n);
        if has_number(init, n) {
            let i = choose|i: int|
                0 <= i < init.len() && (#[trigger] init[i]).reliable_frame_index == Some(n);
            assert(fs[i].reliable_frame_index == Some(n));
        } else if !seen.contains(n) {
            assert(fs[fs.len() - 1].reliable_frame_index == Some(n));
        }
    }
}

/// Frames with numbers of their own that did not arrive before all pass, in their order.
pub proof fn lemma_all_fresh(seen: Set<u24>, fs: Seq<Frame<Seq<u8>>>)
    requires
        forall|i: int|
            0 <= i < fs.len() ==> ((#[trigger] fs[i]).reliable_frame_index matches Some(n)
                ==> !seen.contains(n)),
        forall|i: int, j: int|
            0 <= i < j < fs.len() ==> ((#[trigger] fs[i]).reliable_frame_index is Some ==> fs[i].reliable_frame_index
                != (#[trigger] fs[j]).reliable_frame_index),
    ensures
        fresh_frames(seen, fs) == fs,
    decreases fs.len(),
{
    if fs.len() > 0 {
        let init = fs.drop_last();
        lemma_all_fresh(seen, init);
        assert(init.push(fs.last()) =~= fs);
        if let Some(n) = fs.last().reliable_frame_index {
            lemma_numbers_seen(seen, init, n);
            assert(fs[fs.len() - 1].reliable_frame_index == Some(n));
            if has_number(init, n) {
                let i = choose|i: int|
                    0 <= i < init.len() && (#[trigger] init[i]).reliable_frame_index == Some(n);
                assert(fs[i].reliable_frame_index == Some(n));
            }
        }
    }
}

/// Whatever passes was there.
pub proof fn lemma_fresh_members(seen: Set<u24>, fs: Seq<Frame<Seq<u8>>>)
    ensures
        forall|i: int|
            0 <= i < fresh_frames(seen, fs).len() ==> fs.contains(
                #[trigger] fresh_frames(seen, fs)[i],
            ),
    decreases fs.len(),
{
    if fs.len() > 0 {
        let init = fs.drop_last();
        let fresh = fresh_frames(seen, fs);
        lemma_fresh_members(seen, init);
        assert forall|i: int| 0 <= i < fresh.len() implies fs.contains(#[trigger] fresh[i]) by {
            if i < fresh_frames(seen, init).len() {
                let x = fresh_frames(seen, init)[i];
                assert(init.contains(x));
                let j = choose|j: int| 0 <= j < init.len() && init[j] == x;
                assert(fs[j] == x);
            } else {
                assert(fs[fs.len() - 1] == fresh[i]);
            }
        }
    }
}

/// The number of a frame that arrived counts as arrived.
pub(crate) proof fn lemma_number_seen(seen: Set<u24>, fs: Seq<Frame<Seq<u8>>>, i: int)
    requires
        0 <= i < fs.len(),
    ensures
        fs[i].reliable_frame_index matches Some(n) ==> numbers_seen(seen, fs).contains(n),
    decreases fs.len(),
{
    if i < fs.len() - 1 {
        lemma_number_seen(seen, fs.drop_last(), i);
    }
}

/// Nothing is lost: a frame whose number did not arrive before passes, the first time.
pub proof fn lemma_first_passes(seen: Set<u24>, fs: Seq<Frame<Seq<u8>>>, n: u24)
    requires
        numbers_seen(seen, fs).contains(n),
        !seen.contains(n),
    ensures
        exists|i: int|
            0 <= i < fresh_frames(seen, fs).len() && (#[trigger] fresh_frames(
                seen,
                fs,
            )[i]).reliable_frame_index == Some(n),
    decreases fs.len(),
{
    if fs.len() > 0 {
        let init = fs.drop_last();
        let fresh = fresh_frames(seen, fs);
        if numbers_seen(seen, init).contains(n) {
            lemma_first_passes(seen, init, n);
            let i = choose|i: int|
                0 <= i < fresh_frames(seen, init).len() && (#[trigger] fresh_frames(
                    seen,
                    init,
                )[i]).reliable_frame_index == Some(n);
            assert(fresh[i].reliable_frame_index == Some(n));
        } else {
            assert(fresh[fresh.len() - 1].reliable_frame_index == Some(n));
        }
    }
}

} // verus!
