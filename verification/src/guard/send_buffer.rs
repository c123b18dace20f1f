//! The frames that wait to be sent, by their priority.
use std::collections::VecDeque;

use bytes::Bytes;
use vstd::prelude::*;

use crate::buf::Contents;
use crate::message::Priority;
use crate::packet::connected::frame::{Frame, BODY_LIMIT};
use crate::packet::connected::frame_set::FRAME_SET_HEADER_SIZE;
use crate::sorted_queue::{insert_all, insert_sorted, lemma_slot, sorted, Keyed, SortedQueue};

verus! {

/// A frame with penalty.
#[derive(Debug)]
pub struct PenaltyFrame {
    pub penalty: u8,
    pub frame: Frame<Bytes>,
}

impl Keyed for PenaltyFrame {
    open spec fn spec_key(&self) -> nat {
        self.penalty as nat
    }

    fn key(&self) -> (r: u64) {
        self.penalty as u64
    }
}

/// The frames without their penalties.
pub open spec fn bare(s: Seq<PenaltyFrame>) -> Seq<Frame<Bytes>> {
    Seq::new(s.len(), |i: int| s[i].frame)
}

/// The frames with one and the same penalty.
pub open spec fn with_penalty(fs: Seq<Frame<Bytes>>, penalty: u8) -> Seq<PenaltyFrame> {
    Seq::new(fs.len(), |i: int| PenaltyFrame { penalty, frame: fs[i] })
}

/// The penalty of a frame that is sent again.
pub open spec fn raised(penalty: u8) -> u8 {
    if penalty < u8::MAX {
        (penalty + 1) as u8
    } else {
        penalty
    }
}

/// How many of the frames fit in `room` bytes, taken from the front until one does not.
pub open spec fn fit_count(fs: Seq<Frame<Bytes>>, room: int) -> int
    decreases fs.len(),
{
    if fs.len() > 0 && fs[0]@.spec_size() <= room {
        1 + fit_count(fs.skip(1), room - fs[0]@.spec_size())
    } else {
        0
    }
}

/// How many bytes the frames take in a packet.
pub open spec fn total_size(fs: Seq<Frame<Bytes>>) -> nat
    decreases fs.len(),
{
    if fs.len() == 0 {
        0
    } else {
        total_size(fs.drop_last()) + fs.last()@.spec_size()
    }
}

/// The penalties of the frames, summed up.
pub open spec fn penalty_sum(s: Seq<PenaltyFrame>) -> nat
    decreases s.len(),
{
    if s.len() == 0 {
        0
    } else {
        penalty_sum(s.drop_last()) + s.last().penalty as nat
    }
}

/// Some frame must arrive.
pub open spec fn any_reliable(fs: Seq<Frame<Bytes>>) -> bool {
    exists|i: int| 0 <= i < fs.len() && (#[trigger] fs[i]).flags.reliability.reliable()
}

/// Every frame can be written.
pub open spec fn writable(fs: Seq<Frame<Bytes>>) -> bool {
    forall|i: int| 0 <= i < fs.len() ==> (#[trigger] fs[i])@.body.len() < BODY_LIMIT
}

/// What waits to be sent.
pub ghost struct Waiting {
    /// The frames that are sent again, the least penalty first.
    pub resend: Seq<PenaltyFrame>,
    /// The frames of high priority, the least penalty first.
    pub high: Seq<PenaltyFrame>,
    /// The frames of medium priority.
    pub medium: Seq<Frame<Bytes>>,
    /// The frames of low priority, the least penalty first.
    pub low: Seq<PenaltyFrame>,
}

impl Waiting {
    /// How many frames wait.
    pub open spec fn count(self) -> int {
        self.resend.len() + self.high.len() + self.medium.len() + self.low.len() as int
    }

    /// All frames can be written.
    pub open spec fn wf(self) -> bool {
        &&& sorted(self.resend)
        &&& sorted(self.high)
        &&& sorted(self.low)
        &&& writable(bare(self.resend))
        &&& writable(bare(self.high))
        &&& writable(self.medium)
        &&& writable(bare(self.low))
    }

    /// All frames, in the order they are to be sent in.
    pub open spec fn in_order(self) -> Seq<Frame<Bytes>> {
        bare(self.resend) + bare(self.high) + self.medium + bare(self.low)
    }

    /// Every frame fits in a packet of `mtu` bytes.
    pub open spec fn fits(self, mtu: int) -> bool {
        forall|i: int|
            0 <= i < self.in_order().len() ==> (#[trigger] self.in_order()[i])@.spec_size()
                + FRAME_SET_HEADER_SIZE <= mtu
    }

    /// How many frames of each kind go into the next packet: those that are sent again first,
    /// then the others by their priority, each kind until a frame does not fit any more.
    pub open spec fn picked(self, mtu: int) -> (int, int, int, int) {
        let room = mtu - FRAME_SET_HEADER_SIZE;
        let a = fit_count(bare(self.resend), room);
        let room = room - total_size(bare(self.resend).take(a));
        let b = fit_count(bare(self.high), room);
        let room = room - total_size(bare(self.high).take(b));
        let c = fit_count(self.medium, room);
        let room = room - total_size(self.medium.take(c));
        let d = fit_count(bare(self.low), room);
        (a, b, c, d)
    }

    /// The frames of the next packet.
    pub open spec fn packet(self, mtu: int) -> Seq<Frame<Bytes>> {
        let (a, b, c, d) = self.picked(mtu);
        bare(self.resend).take(a) + bare(self.high).take(b) + self.medium.take(c) + bare(
            self.low,
        ).take(d)
    }

    /// What waits once the next packet was sent.
    pub open spec fn after_packet(self, mtu: int) -> Waiting {
        let (a, b, c, d) = self.picked(mtu);
        Waiting {
            resend: self.resend.skip(a),
            high: self.high.skip(b),
            medium: self.medium.skip(c),
            low: self.low.skip(d),
        }
    }

    /// The penalty of the next packet: the mean of those of its frames, where none of them is
    /// sent for the first time; 0 otherwise. `before` frames are in the packet already.
    pub open spec fn packet_penalty(self, mtu: int, before: int) -> int {
        let (a, b, c, d) = self.picked(mtu);
        if before + a == 0 || b + c + d > 0 {
            0
        } else {
            penalty_sum(self.resend.take(a)) as int / (before + a)
        }
    }
}

/// The frames that wait to be sent, in queues of their own for each kind.
#[derive(Debug)]
pub struct SendBuffer {
    /// How many frames should wait at most.
    pub cap: usize,
    pub send_high: SortedQueue<PenaltyFrame>,
    pub send_medium: VecDeque<Frame<Bytes>>,
    pub send_low: SortedQueue<PenaltyFrame>,
    pub resend: SortedQueue<PenaltyFrame>,
}

impl View for SendBuffer {
    type V = Waiting;

    open spec fn view(&self) -> Waiting {
        Waiting {
            resend: self.resend@,
            high: self.send_high@,
            medium: self.send_medium@,
            low: self.send_low@,
        }
    }
}

impl SendBuffer {
    /// A buffer without frames.
    pub fn new(cap: usize) -> (r: SendBuffer)
        ensures
            r.cap == cap,
            r@ == (Waiting {
                resend: Seq::empty(),
                high: Seq::empty(),
                medium: Seq::empty(),
                low: Seq::empty(),
            }),
            r@.wf(),
    {
        SendBuffer {
            cap,
            send_high: SortedQueue::new(),
            send_medium: VecDeque::new(),
            send_low: SortedQueue::new(),
            resend: SortedQueue::new(),
        }
    }

    /// Takes in a frame to send.
    pub fn send(&mut self, priority: Priority, frame: Frame<Bytes>)
        requires
            old(self)@.wf(),
            frame@.body.len() < BODY_LIMIT,
        ensures
            final(self)@.wf(),
            final(self).cap == old(self).cap,
            final(self)@ == (match priority {
                Priority::High(penalty) => Waiting {
                    high: insert_sorted(old(self)@.high, PenaltyFrame { penalty, frame }),
                    ..old(self)@
                },
                Priority::Medium => Waiting { medium: old(self)@.medium.push(frame), ..old(self)@ },
                Priority::Low(penalty) => Waiting {
                    low: insert_sorted(old(self)@.low, PenaltyFrame { penalty, frame }),
                    ..old(self)@
                },
            }),
    {
        match priority {
            Priority::High(penalty) => {
                let item = PenaltyFrame { penalty, frame };
                proof {
                    lemma_bare_insert(self@.high, item);
                }
                self.send_high.push(item);
            },
            Priority::Medium => {
                self.send_medium.push_back(frame);
            },
            Priority::Low(penalty) => {
                let item = PenaltyFrame { penalty, frame };
                proof {
                    lemma_bare_insert(self@.low, item);
                }
                self.send_low.push(item);
            },
        }
    }

    /// Takes in frames to send again, which raises their penalty.
    pub fn resend(&mut self, frames: Vec<Frame<Bytes>>, penalty: u8)
        requires
            old(self)@.wf(),
            writable(frames@),
        ensures
            final(self)@.wf(),
            final(self).cap == old(self).cap,
            final(self)@ == (Waiting {
                resend: insert_all(old(self)@.resend, with_penalty(frames@, raised(penalty))),
                ..old(self)@
            }),
    {
        let penalty: u8 = if penalty < u8::MAX {
            penalty + 1
        } else {
            penalty
        };
        let ghost start = self@;
        let ghost all = with_penalty(frames@, penalty);
        assert(all.take(0) =~= Seq::empty());
        for frame in iter: frames.into_iter()
            invariant
                self@.wf(),
                self.cap == old(self).cap,
                writable(iter.seq()),
                all == with_penalty(iter.seq(), penalty),
                self@ == (Waiting {
                    resend: insert_all(start.resend, all.take(iter.index() as int)),
                    ..start
                }),
        {
            let ghost i = iter.index() as int;
            let item = PenaltyFrame { penalty, frame };
            proof {
                assert(iter.seq()[i] == frame);
                assert(all.take(i + 1).drop_last() =~= all.take(i));
                assert(all.take(i + 1).last() == item);
                lemma_bare_insert(self@.resend, item);
            }
            self.resend.push(item);
        }
        assert(all.take(all.len() as int) =~= all);
    }

    /// Fills the next packet of `mtu` bytes: moves its frames into `frames`, tells in `reliable`
    /// whether some frame of it must arrive, and returns its penalty.
    pub fn pop(&mut self, mtu: usize, reliable: &mut bool, frames: &mut Vec<Frame<Bytes>>) -> (r:
        u8)
        requires
            old(self)@.wf(),
            FRAME_SET_HEADER_SIZE <= mtu <= u16::MAX,
            writable(old(frames)@),
        ensures
            final(self)@.wf(),
            final(self).cap == old(self).cap,
            final(self)@ == old(self)@.after_packet(mtu as int),
            final(frames)@ == old(frames)@ + old(self)@.packet(mtu as int),
            *final(reliable) == (*old(reliable) || any_reliable(old(self)@.packet(mtu as int))),
            r == old(self)@.packet_penalty(mtu as int, old(frames)@.len() as int),
            writable(final(frames)@),
            total_size(old(self)@.packet(mtu as int)) + FRAME_SET_HEADER_SIZE <= mtu,
    {
        let ghost start = self@;
        let ghost flag = *reliable;
        let remain: usize = mtu - FRAME_SET_HEADER_SIZE;
        let ghost none = frames@;
        let before: usize = frames.len();
        // pop resend first
        let (remain, penalty): (usize, usize) = pop_fitting(
            &mut self.resend,
            remain,
            reliable,
            frames,
        );
        let again: usize = frames.len();
        // then send in order
        let (remain, _high): (usize, usize) = pop_fitting(
            &mut self.send_high,
            remain,
            reliable,
            frames,
        );
        let remain: usize = pop_fitting_bare(&mut self.send_medium, remain, reliable, frames);
        let (_remain, _low): (usize, usize) = pop_fitting(
            &mut self.send_low,
            remain,
            reliable,
            frames,
        );
        proof {
            let (a, b, c, d) = start.picked(mtu as int);
            lemma_packet(none, start, mtu as int);
            lemma_penalty_bound(start.resend.take(a));
        }
        if frames.len() == 0 || frames.len() > again {
            // if there is some frame sending firstly, the penalty is 0
            return 0;
        }
        proof {
            let n = again as int;
            let sum = penalty as int;
            assert(n == before + start.picked(mtu as int).0);
            assert(0 <= sum / n <= 255) by (nonlinear_arith)
                requires
                    n > 0,
                    0 <= sum <= 255 * n,
            ;
        }
        // the mean of the penalties of these frames
        (penalty / again) as u8
    }

    /// How many frames wait.
    pub fn len(&self) -> (r: usize)
        requires
            self@.count() <= usize::MAX,
        ensures
            r == self@.count(),
    {
        self.send_high.len() + self.send_medium.len() + self.send_low.len() + self.resend.len()
    }

    /// Whether as many frames wait as should at most, or more.
    pub fn is_full(&self) -> (r: bool)
        ensures
            r == (self@.count() >= self.cap),
    {
        let count: u128 = self.send_high.len() as u128 + self.send_medium.len() as u128
            + self.send_low.len() as u128 + self.resend.len() as u128;
        count >= self.cap as u128
    }

    /// Whether no frame waits.
    pub fn is_empty(&self) -> (r: bool)
        ensures
            r == (self@.count() == 0),
    {
        self.send_high.is_empty() && self.send_medium.len() == 0 && self.send_low.is_empty()
            && self.resend.is_empty()
    }
}

/// Moves frames from the front of a queue as long as they fit in `room` bytes. Returns the room
/// that is left and the sum of their penalties.
fn pop_fitting(
    queue: &mut SortedQueue<PenaltyFrame>,
    room: usize,
    reliable: &mut bool,
    frames: &mut Vec<Frame<Bytes>>,
) -> (r: (usize, usize))
    requires
        old(queue).wf(),
        writable(bare(old(queue)@)),
        room <= u16::MAX,
        writable(old(frames)@),
    ensures
        final(queue).wf(),
        ({
            let s = old(queue)@;
            let n = fit_count(bare(s), room as int);
            &&& 0 <= n <= s.len()
            &&& final(queue)@ == s.skip(n)
            &&& writable(bare(final(queue)@))
            &&& final(frames)@ == old(frames)@ + bare(s).take(n)
            &&& writable(final(frames)@)
            &&& *final(reliable) == (*old(reliable) || any_reliable(bare(s).take(n)))
            &&& r.0 == room - total_size(bare(s).take(n))
            &&& r.1 == penalty_sum(s.take(n))
        }),
{
    let ghost s = queue@;
    let ghost fs = bare(s);
    let ghost flag = *reliable;
    let mut room_left: usize = room;
    let mut penalty: usize = 0;
    let ghost mut n: int = 0;
    assert(s.skip(0) =~= s);
    assert(fs.skip(0) =~= fs);
    assert(s.take(0) =~= Seq::empty());
    assert(fs.take(0) =~= Seq::empty());
    assert(frames@ =~= old(frames)@ + fs.take(0));
    while queue.len() > 0
        invariant_except_break
            fit_count(fs, room as int) == n + fit_count(fs.skip(n), room_left as int),
        invariant
            queue.wf(),
            fs == bare(s),
            writable(fs),
            0 <= n <= s.len(),
            queue@ == s.skip(n),
            room <= u16::MAX,
            room_left == room - total_size(fs.take(n)),
            penalty == penalty_sum(s.take(n)),
            penalty <= 255 * (room - room_left),
            frames@ == old(frames)@ + fs.take(n),
            *reliable == (flag || any_reliable(fs.take(n))),
        ensures
            n == fit_count(fs, room as int),
        decreases queue@.len(),
    {
        assert(fs.skip(n)[0] == fs[n]);
        assert(fs[n]@.body.len() < BODY_LIMIT);
        assert(queue@[0] == s[n]);
        let size: usize = queue.items[0].frame.size();
        if room_left < size {
            break;
        }
        let item = queue.pop().unwrap();
        proof {
            assert(s.skip(n).skip(1) =~= s.skip(n + 1));
            assert(fs.skip(n).skip(1) =~= fs.skip(n + 1));
            assert(fs.take(n + 1).drop_last() =~= fs.take(n));
            assert(s.take(n + 1).drop_last() =~= s.take(n));
            lemma_any_push(fs, n);
        }
        if item.frame.flags.reliability.is_reliable() {
            *reliable = true;
        }
        room_left = room_left - size;
        penalty = penalty + item.penalty as usize;
        frames.push(item.frame);
        proof {
            n = n + 1;
            assert(frames@ =~= old(frames)@ + fs.take(n));
        }
    }
    proof {
        lemma_fit(fs, room as int);
        assert(bare(queue@) =~= fs.skip(n));
    }
    (room_left, penalty)
}

/// Moves frames from the front of a queue without penalties as long as they fit in `room` bytes.
/// Returns the room that is left.
fn pop_fitting_bare(
    queue: &mut VecDeque<Frame<Bytes>>,
    room: usize,
    reliable: &mut bool,
    frames: &mut Vec<Frame<Bytes>>,
) -> (r: usize)
    requires
        writable(old(queue)@),
        writable(old(frames)@),
    ensures
        ({
            let fs = old(queue)@;
            let n = fit_count(fs, room as int);
            &&& 0 <= n <= fs.len()
            &&& final(queue)@ == fs.skip(n)
            &&& writable(final(queue)@)
            &&& final(frames)@ == old(frames)@ + fs.take(n)
            &&& writable(final(frames)@)
            &&& *final(reliable) == (*old(reliable) || any_reliable(fs.take(n)))
            &&& r == room - total_size(fs.take(n))
        }),
{
    let ghost fs = queue@;
    let ghost flag = *reliable;
    let mut room_left: usize = room;
    let ghost mut n: int = 0;
    assert(fs.skip(0) =~= fs);
    assert(fs.take(0) =~= Seq::empty());
    assert(frames@ =~= old(frames)@ + fs.take(0));
    while queue.len() > 0
        invariant_except_break
            fit_count(fs, room as int) == n + fit_count(fs.skip(n), room_left as int),
        invariant
            writable(fs),
            0 <= n <= fs.len(),
            queue@ == fs.skip(n),
            room_left == room - total_size(fs.take(n)),
            frames@ == old(frames)@ + fs.take(n),
            *reliable == (flag || any_reliable(fs.take(n))),
        ensures
            n == fit_count(fs, room as int),
        decreases queue@.len(),
    {
        assert(fs.skip(n)[0] == fs[n]);
        assert(fs[n]@.body.len() < BODY_LIMIT);
        let size: usize = queue[0].size();
        if room_left < size {
            break;
        }
        let frame = queue.pop_front().unwrap();
        proof {
            assert(fs.skip(n).skip(1) =~= fs.skip(n + 1));
            assert(queue@ =~= fs.skip(n + 1));
            assert(fs.take(n + 1).drop_last() =~= fs.take(n));
            lemma_any_push(fs, n);
        }
        if frame.flags.reliability.is_reliable() {
            *reliable = true;
        }
        room_left = room_left - size;
        frames.push(frame);
        proof {
            n = n + 1;
            assert(frames@ =~= old(frames)@ + fs.take(n));
        }
    }
    proof {
        lemma_fit(fs, room as int);
    }
    room_left
}

proof fn lemma_bare_insert(s: Seq<PenaltyFrame>, x: PenaltyFrame)
    requires
        sorted(s),
        writable(bare(s)),
        x.frame@.body.len() < BODY_LIMIT,
    ensures
        writable(bare(insert_sorted(s, x))),
{
    lemma_slot(s, x.spec_key());
    let t = insert_sorted(s, x);
    let at = crate::sorted_queue::slot(s, x.spec_key());
    assert forall|i: int| 0 <= i < bare(t).len() implies (#[trigger] bare(t)[i])@.body.len()
        < BODY_LIMIT by {
        if i < at {
            assert(bare(t)[i] == bare(s)[i]);
        } else if i > at {
            assert(bare(t)[i] == bare(s)[i - 1]);
        }
    }
}

proof fn lemma_any_push(fs: Seq<Frame<Bytes>>, n: int)
    requires
        0 <= n < fs.len(),
    ensures
        any_reliable(fs.take(n + 1)) == (any_reliable(fs.take(n))
            || fs[n].flags.reliability.reliable()),
{
    if any_reliable(fs.take(n)) {
        let i = choose|i: int|
            0 <= i < n && (#[trigger] fs.take(n)[i]).flags.reliability.reliable();
        assert(fs.take(n + 1)[i].flags.reliability.reliable());
    }
    if fs[n].flags.reliability.reliable() {
        assert(fs.take(n + 1)[n].flags.reliability.reliable());
    }
    if any_reliable(fs.take(n + 1)) {
        let i = choose|i: int|
            0 <= i < n + 1 && (#[trigger] fs.take(n + 1)[i]).flags.reliability.reliable();
        if i < n {
            assert(fs.take(n)[i].flags.reliability.reliable());
        }
    }
}

proof fn lemma_any_concat(a: Seq<Frame<Bytes>>, b: Seq<Frame<Bytes>>)
    ensures
        any_reliable(a + b) == (any_reliable(a) || any_reliable(b)),
{
    if any_reliable(a) {
        let i = choose|i: int|
            0 <= i < a.len() && (#[trigger] a[i]).flags.reliability.reliable();
        assert((a + b)[i].flags.reliability.reliable());
    }
    if any_reliable(b) {
        let i = choose|i: int|
            0 <= i < b.len() && (#[trigger] b[i]).flags.reliability.reliable();
        assert((a + b)[a.len() + i].flags.reliability.reliable());
    }
    if any_reliable(a + b) {
        let i = choose|i: int|
            0 <= i < (a + b).len() && (#[trigger] (a + b)[i]).flags.reliability.reliable();
        if i < a.len() {
            assert(a[i].flags.reliability.reliable());
        } else {
            assert(b[i - a.len()].flags.reliability.reliable());
        }
    }
}

proof fn lemma_total_concat(a: Seq<Frame<Bytes>>, b: Seq<Frame<Bytes>>)
    ensures
        total_size(a + b) == total_size(a) + total_size(b),
    decreases b.len(),
{
    if b.len() == 0 {
        assert(a + b =~= a);
    } else {
        lemma_total_concat(a, b.drop_last());
        assert((a + b).drop_last() =~= a + b.drop_last());
    }
}

proof fn lemma_packet(none: Seq<Frame<Bytes>>, w: Waiting, mtu: int)
    requires
        mtu >= FRAME_SET_HEADER_SIZE,
    ensures
        ({
            let (a, b, c, d) = w.picked(mtu);
            let q1 = bare(w.resend).take(a);
            let q2 = bare(w.high).take(b);
            let q3 = w.medium.take(c);
            let q4 = bare(w.low).take(d);
            &&& none + q1 + q2 + q3 + q4 == none + w.packet(mtu)
            &&& any_reliable(w.packet(mtu)) == (any_reliable(q1) || any_reliable(q2)
                || any_reliable(q3) || any_reliable(q4))
            &&& total_size(w.packet(mtu)) == total_size(q1) + total_size(q2) + total_size(q3)
                + total_size(q4)
            &&& 0 <= a <= w.resend.len()
        }),
{
    let (a, b, c, d) = w.picked(mtu);
    let q1 = bare(w.resend).take(a);
    let q2 = bare(w.high).take(b);
    let q3 = w.medium.take(c);
    let q4 = bare(w.low).take(d);
    lemma_fit(bare(w.resend), mtu - FRAME_SET_HEADER_SIZE);
    assert(none + q1 + q2 + q3 + q4 =~= none + (q1 + q2 + q3 + q4));
    lemma_any_concat(q1, q2);
    lemma_any_concat(q1 + q2, q3);
    lemma_any_concat(q1 + q2 + q3, q4);
    lemma_total_concat(q1, q2);
    lemma_total_concat(q1 + q2, q3);
    lemma_total_concat(q1 + q2 + q3, q4);
}

proof fn lemma_fit_first(fs: Seq<Frame<Bytes>>, room: int)
    requires
        fs.len() > 0,
        fs[0]@.spec_size() <= room,
    ensures
        fit_count(fs, room) >= 1,
{
    lemma_fit(fs.skip(1), room - fs[0]@.spec_size());
}

proof fn lemma_penalty_bound(s: Seq<PenaltyFrame>)
    ensures
        penalty_sum(s) <= 255 * s.len(),
    decreases s.len(),
{
    if s.len() > 0 {
        lemma_penalty_bound(s.drop_last());
    }
}

/// What is taken fits, and one frame more does not.
pub proof fn lemma_fit(fs: Seq<Frame<Bytes>>, room: int)
    requires
        room >= 0,
    ensures
        0 <= fit_count(fs, room) <= fs.len(),
        total_size(fs.take(fit_count(fs, room))) <= room,
        fit_count(fs, room) < fs.len() ==> total_size(fs.take(fit_count(fs, room) + 1)) > room,
    decreases fs.len(),
{
    let n = fit_count(fs, room);
    if fs.len() > 0 && fs[0]@.spec_size() <= room {
        let tail = fs.skip(1);
        let left = room - fs[0]@.spec_size();
        lemma_fit(tail, left);
        let one = seq![fs[0]];
        reveal_with_fuel(total_size, 2);
        assert(one.drop_last() =~= Seq::empty());
        assert(total_size(one) == fs[0]@.spec_size());
        lemma_total_concat(one, tail.take(n - 1));
        assert(fs.take(n) =~= one + tail.take(n - 1));
        if n < fs.len() {
            lemma_total_concat(one, tail.take(n));
            assert(fs.take(n + 1) =~= one + tail.take(n));
        }
    } else {
        assert(fs.take(0) =~= Seq::empty());
        if fs.len() > 0 {
            reveal_with_fuel(total_size, 2);
            assert(fs.take(1).drop_last() =~= Seq::empty());
            assert(total_size(fs.take(1)) == fs[0]@.spec_size());
        }
    }
}

/// The frames of a packet fit behind its header.
pub proof fn lemma_packet_size(w: Waiting, mtu: int)
    requires
        mtu >= FRAME_SET_HEADER_SIZE,
    ensures
        total_size(w.packet(mtu)) + FRAME_SET_HEADER_SIZE <= mtu,
{
    let (a, b, c, d) = w.picked(mtu);
    let r0 = mtu - FRAME_SET_HEADER_SIZE;
    let r1 = r0 - total_size(bare(w.resend).take(a));
    let r2 = r1 - total_size(bare(w.high).take(b));
    let r3 = r2 - total_size(w.medium.take(c));
    lemma_fit(bare(w.resend), r0);
    lemma_fit(bare(w.high), r1);
    lemma_fit(w.medium, r2);
    lemma_fit(bare(w.low), r3);
    lemma_packet(Seq::empty(), w, mtu);
}

/// A flush makes progress: where frames wait, and each fits in a packet of its own, the next
/// packet is not empty.
pub proof fn lemma_progress(w: Waiting, mtu: int)
    requires
        w.count() > 0,
        w.fits(mtu),
    ensures
        w.packet(mtu).len() > 0,
        w.after_packet(mtu).count() < w.count(),
{
    let room = mtu - FRAME_SET_HEADER_SIZE;
    let (a, b, c, d) = w.picked(mtu);
    assert(w.in_order()[0]@.spec_size() <= room);
    let r1 = room - total_size(bare(w.resend).take(a));
    let r2 = r1 - total_size(bare(w.high).take(b));
    let r3 = r2 - total_size(w.medium.take(c));
    lemma_fit(bare(w.resend), room);
    lemma_fit(bare(w.high), r1);
    lemma_fit(w.medium, r2);
    lemma_fit(bare(w.low), r3);
    if w.resend.len() > 0 {
        assert(w.in_order()[0] == bare(w.resend)[0]);
        lemma_fit_first(bare(w.resend), room);
    } else {
        assert(bare(w.resend).take(a) =~= Seq::empty());
        if w.high.len() > 0 {
            assert(w.in_order()[0] == bare(w.high)[0]);
            lemma_fit_first(bare(w.high), r1);
        } else {
            assert(bare(w.high).take(b) =~= Seq::empty());
            if w.medium.len() > 0 {
                assert(w.in_order()[0] == w.medium[0]);
                lemma_fit_first(w.medium, r2);
            } else {
                assert(w.medium.take(c) =~= Seq::empty());
                assert(w.in_order()[0] == bare(w.low)[0]);
                lemma_fit_first(bare(w.low), r3);
            }
        }
    }
}

/// A packet takes nothing away but its own frames, and of every kind it takes the first ones:
/// what is sent and what still waits make up what waited.
pub proof fn lemma_nothing_lost(w: Waiting, mtu: int)
    requires
        mtu >= FRAME_SET_HEADER_SIZE,
    ensures
        ({
            let (a, b, c, d) = w.picked(mtu);
            &&& 0 <= a <= w.resend.len()
            &&& 0 <= b <= w.high.len()
            &&& 0 <= c <= w.medium.len()
            &&& 0 <= d <= w.low.len()
            &&& w.resend.take(a) + w.after_packet(mtu).resend == w.resend
            &&& w.high.take(b) + w.after_packet(mtu).high == w.high
            &&& w.medium.take(c) + w.after_packet(mtu).medium == w.medium
            &&& w.low.take(d) + w.after_packet(mtu).low == w.low
        }),
{
    let (a, b, c, d) = w.picked(mtu);
    let r0 = mtu - FRAME_SET_HEADER_SIZE;
    let r1 = r0 - total_size(bare(w.resend).take(a));
    let r2 = r1 - total_size(bare(w.high).take(b));
    let r3 = r2 - total_size(w.medium.take(c));
    lemma_fit(bare(w.resend), r0);
    lemma_fit(bare(w.high), r1);
    lemma_fit(w.medium, r2);
    lemma_fit(bare(w.low), r3);
    assert(w.resend.take(a) + w.resend.skip(a) =~= w.resend);
    assert(w.high.take(b) + w.high.skip(b) =~= w.high);
    assert(w.medium.take(c) + w.medium.skip(c) =~= w.medium);
    assert(w.low.take(d) + w.low.skip(d) =~= w.low);
}

} // verus!
