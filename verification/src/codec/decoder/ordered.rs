//! Ordering: frames of an order channel are passed on in the order they were sent in.
use std::collections::HashMap;

use vstd::prelude::*;

use crate::errors::{ChannelError, CodecError};
use crate::packet::connected::frame::{Frame, Ordered};
use crate::packet::connected::frame_set::FrameSet;
use crate::uint24::{u24, U24_RANGE};

verus! {

/// What an order channel holds.
pub ghost struct ChannelView<B> {
    /// The frames that came too early, by their indexes.
    pub held: Map<u32, FrameSet<Frame<B>>>,
    /// The index of the frame to pass on next.
    pub read: u32,
}

impl<B> ChannelView<B> {
    /// Only frames of this channel wait, each under its index, and none that was due before.
    pub open spec fn wf(self, channel: int) -> bool {
        &&& self.read <= U24_RANGE
        &&& forall|i: u32| #[trigger]
            self.held.contains_key(i) ==> {
                &&& self.read <= i < U24_RANGE
                &&& self.held[i].set.ordered matches Some(o) && o.frame_index == u24(i) && o.channel
                    == channel
            }
    }

    /// The indexes of the frames that arrived: those that were passed on, and those that wait.
    pub open spec fn arrived(self) -> Set<u32> {
        Set::new(|i: u32| i < self.read || self.held.contains_key(i))
    }

    /// The next frame is there.
    pub open spec fn due(self) -> bool {
        self.held.contains_key(self.read)
    }

    /// The channel once its next frame was passed on.
    pub open spec fn passed_on(self) -> ChannelView<B> {
        ChannelView { held: self.held.remove(self.read), read: (self.read + 1) as u32 }
    }

    /// The channel once a frame with this index arrived. One that was passed on before is dropped.
    pub open spec fn with_frame(self, index: u32, frame_set: FrameSet<Frame<B>>) -> ChannelView<B> {
        if index < self.read {
            self
        } else {
            ChannelView { held: self.held.insert(index, frame_set), ..self }
        }
    }
}

/// The first channel at or behind `from` whose next frame is there; the number of channels where
/// there is none.
pub open spec fn first_due<B>(channels: Seq<ChannelView<B>>, from: int) -> int
    decreases channels.len() - from,
{
    if from >= channels.len() {
        channels.len() as int
    } else if channels[from].due() {
        from
    } else {
        first_due(channels, from + 1)
    }
}

/// The channel, and the frames before, once every frame that is due was passed on.
pub open spec fn drained<B>(c: ChannelView<B>, out: Seq<Frame<B>>) -> (ChannelView<B>, Seq<Frame<B>>)
    decreases U24_RANGE - c.read,
{
    if c.due() && c.read < U24_RANGE {
        drained(c.passed_on(), out.push(c.held[c.read].set))
    } else {
        (c, out)
    }
}

/// The channels, and the frames that are passed on, once the frames of a set arrived, up to the
/// first one that is refused; and why that one is. With each frame that is due, those that waited
/// for it are passed on.
pub open spec fn ordered_all<B>(
    channels: Seq<ChannelView<B>>,
    seq_num: u24,
    fs: Seq<Frame<B>>,
) -> (Seq<ChannelView<B>>, Seq<Frame<B>>, Option<ChannelError>)
    decreases fs.len(),
{
    if fs.len() == 0 {
        (channels, Seq::empty(), None)
    } else {
        let (channels, out, e) = ordered_all(channels, seq_num, fs.drop_last());
        let f = fs.last();
        if e is Some {
            (channels, out, e)
        } else {
            match f.ordered {
                None => (channels, out.push(f), None),
                Some(Ordered { frame_index, channel }) => {
                    let c = channel as int;
                    if channel >= channels.len() {
                        (
                            channels,
                            out,
                            Some(
                                ChannelError {
                                    channel: channel as usize,
                                    max_channels: channels.len() as usize,
                                },
                            ),
                        )
                    } else {
                        let arrived = channels[c].with_frame(
                            frame_index.0,
                            FrameSet { seq_num, set: f },
                        );
                        let (after, out) = drained(arrived, out);
                        (channels.update(c, after), out, None)
                    }
                },
            }
        }
    }
}

/// An order channel: the frames that came too early, and the index of the one to pass on next.
#[verifier::reject_recursive_types(B)]
pub struct OrderChannel<B> {
    pub map: HashMap<u32, FrameSet<Frame<B>>>,
    pub read: u32,
}

impl<B> View for OrderChannel<B> {
    type V = ChannelView<B>;

    open spec fn view(&self) -> ChannelView<B> {
        ChannelView { held: self.map@, read: self.read }
    }
}

impl<B> OrderChannel<B> {
    /// A channel on which nothing was sent.
    pub fn new() -> (r: OrderChannel<B>)
        ensures
            r@ == (ChannelView::<B> { held: Map::empty(), read: 0 }),
    {
        broadcast use vstd::std_specs::hash::group_hash_axioms;

        OrderChannel { map: HashMap::new(), read: 0 }
    }
}

/// The ordering layer.
#[verifier::reject_recursive_types(B)]
pub struct Order<B> {
    pub ordering: Vec<OrderChannel<B>>,
}

impl<B> View for Order<B> {
    type V = Seq<ChannelView<B>>;

    open spec fn view(&self) -> Seq<ChannelView<B>> {
        Seq::new(self.ordering@.len(), |i: int| self.ordering@[i]@)
    }
}

/// Every channel is in order.
pub open spec fn channels_wf<B>(channels: Seq<ChannelView<B>>) -> bool {
    &&& channels.len() <= u8::MAX
    &&& forall|c: int| 0 <= c < channels.len() ==> (#[trigger] channels[c]).wf(c)
}

impl<B> Order<B> {
    /// A layer with this many channels.
    pub fn new(max_channels: usize) -> (r: Order<B>)
        requires
            0 < max_channels <= u8::MAX,
        ensures
            channels_wf(r@),
            r@ == Seq::new(
                max_channels as nat,
                |i: int| ChannelView::<B> { held: Map::empty(), read: 0 },
            ),
    {
        let mut ordering: Vec<OrderChannel<B>> = Vec::new();
        let mut i: usize = 0;
        while i < max_channels
            invariant
                i <= max_channels <= u8::MAX,
                ordering@.len() == i,
                forall|c: int|
                    0 <= c < i ==> (#[trigger] ordering@[c])@ == (ChannelView::<B> {
                        held: Map::empty(),
                        read: 0,
                    }),
            decreases max_channels - i,
        {
            ordering.push(OrderChannel::new());
            i = i + 1;
        }
        let r = Order { ordering };
        assert(r@ =~= Seq::new(
            max_channels as nat,
            |i: int| ChannelView::<B> { held: Map::empty(), read: 0 },
        ));
        r
    }

    /// The next frame that is due on some channel, those with the lower numbers first.
    pub fn next_ready(&mut self) -> (r: Option<FrameSet<Frame<B>>>)
        requires
            channels_wf(old(self)@),
        ensures
            channels_wf(final(self)@),
            ({
                let before = old(self)@;
                let c = first_due(before, 0);
                match r {
                    Some(frame_set) => {
                        let read = before[c].read;
                        &&& 0 <= c < before.len()
                        &&& before[c].due()
                        &&& frame_set == before[c].held[read]
                        &&& frame_set.set.ordered == Some(
                            Ordered { frame_index: u24(read), channel: c as u8 },
                        )
                        &&& final(self)@ == before.update(c, before[c].passed_on())
                        &&& final(self)@[c].arrived() == before[c].arrived()
                    },
                    None => c == before.len() && final(self)@ == before,
                }
            }),
    {
        broadcast use vstd::std_specs::hash::group_hash_axioms;

        let ghost before = self@;
        let mut channel: usize = 0;
        while channel < self.ordering.len()
            invariant
                channel <= self.ordering@.len(),
                self@ == before,
                before == old(self)@,
                channels_wf(before),
                first_due(before, 0) == first_due(before, channel as int),
            decreases self.ordering@.len() - channel,
        {
            broadcast use vstd::std_specs::hash::group_hash_axioms;

            let ghost c = channel as int;
            assert(before[c].wf(c));
            assert(before[c] == self.ordering@[c]@);
            let read: u32 = self.ordering[channel].read;
            if self.ordering[channel].map.contains_key(&read) {
                let ordering = &mut self.ordering[channel];
                let next = ordering.map.remove(&read).unwrap();
                ordering.read = read + 1;
                proof {
                    let after = self@;
                    assert(after =~= before.update(c, before[c].passed_on()));
                    assert forall|k: int| 0 <= k < after.len() implies (#[trigger] after[k]).wf(
                        k,
                    ) by {
                        assert(before[k].wf(k));
                    }
                    assert(after[c].arrived() =~= before[c].arrived());
                }
                return Some(next);
            }
            channel = channel + 1;
        }
        None
    }

    /// Takes in a frame. One that is not ordered is passed on at once; one that was passed on
    /// before is dropped; any other waits for its turn.
    pub fn accept(&mut self, frame_set: FrameSet<Frame<B>>) -> (r: Result<
        Option<FrameSet<Frame<B>>>,
        CodecError,
    >)
        requires
            channels_wf(old(self)@),
            frame_set.set.ordered matches Some(o) ==> o.frame_index.wf(),
        ensures
            channels_wf(final(self)@),
            ({
                let before = old(self)@;
                match frame_set.set.ordered {
                    None => r == Ok::<Option<FrameSet<Frame<B>>>, CodecError>(Some(frame_set))
                        && final(self)@ == before,
                    Some(Ordered { frame_index, channel }) => {
                        if channel >= before.len() {
                            &&& r == Err::<Option<FrameSet<Frame<B>>>, CodecError>(
                                CodecError::OrderedFrame(
                                    ChannelError {
                                        channel: channel as usize,
                                        max_channels: before.len() as usize,
                                    },
                                ),
                            )
                            &&& final(self)@ == before
                        } else {
                            let c = channel as int;
                            &&& r == Ok::<Option<FrameSet<Frame<B>>>, CodecError>(None)
                            &&& final(self)@ == before.update(
                                c,
                                before[c].with_frame(frame_index.0, frame_set),
                            )
                            &&& final(self)@[c].arrived() == before[c].arrived().insert(
                                frame_index.0,
                            )
                        }
                    },
                }
            }),
    {
        broadcast use vstd::std_specs::hash::group_hash_axioms;

        let ghost before = self@;
        let Ordered { frame_index, channel } = match frame_set.set.ordered {
            Some(ordered) => ordered,
            None => {
                return Ok(Some(frame_set));
            },
        };
        let channel: usize = channel as usize;
        let max_channels: usize = self.ordering.len();
        if channel >= max_channels {
            return Err(CodecError::OrderedFrame(ChannelError { channel, max_channels }));
        }
        let ghost c = channel as int;
        assert(before[c].wf(c));
        assert(before[c] == self.ordering@[c]@);
        if frame_index.0 < self.ordering[channel].read {
            proof {
                let arrived = before[c].arrived();
                assert(arrived.insert(frame_index.0) =~= arrived);
                assert(before.update(c, before[c]) =~= before);
            }
            return Ok(None);
        }
        let ordering = &mut self.ordering[channel];
        ordering.map.insert(frame_index.0, frame_set);
        proof {
            let after = self@;
            assert(after =~= before.update(c, before[c].with_frame(frame_index.0, frame_set)));
            assert forall|k: int| 0 <= k < after.len() implies (#[trigger] after[k]).wf(k) by {
                assert(before[k].wf(k));
            }
            assert(after[c].arrived() =~= before[c].arrived().insert(frame_index.0));
        }
        Ok(None)
    }
}

impl<B> Order<B> {
    /// Passes on every frame that is due on a channel.
    fn drain(&mut self, channel: usize, out: &mut Vec<Frame<B>>)
        requires
            channels_wf(old(self)@),
            channel < old(self)@.len(),
        ensures
            channels_wf(final(self)@),
            ({
                let c = channel as int;
                let (after, frames) = drained(old(self)@[c], old(out)@);
                &&& final(self)@ == old(self)@.update(c, after)
                &&& final(out)@ == frames
            }),
    {
        broadcast use vstd::std_specs::hash::group_hash_axioms;

        let ghost c = channel as int;
        let ghost before = self@;
        let ghost start = (before[c], out@);
        assert(before.update(c, before[c]) =~= before);
        loop
            invariant
                channels_wf(self@),
                c == channel,
                channel < self.ordering@.len(),
                before.len() == self.ordering@.len(),
                before == old(self)@,
                start == (before[c], old(out)@),
                self@ == before.update(c, self@[c]),
                drained(self@[c], out@) == drained(start.0, start.1),
            ensures
                drained(self@[c], out@) == (self@[c], out@),
            decreases U24_RANGE - self@[c].read,
        {
            broadcast use vstd::std_specs::hash::group_hash_axioms;

            let ghost now = self@;
            assert(now[c].wf(c));
            assert(now[c] == self.ordering@[c]@);
            let read: u32 = self.ordering[channel].read;
            if !self.ordering[channel].map.contains_key(&read) {
                break;
            }
            let ordering = &mut self.ordering[channel];
            let next = ordering.map.remove(&read).unwrap();
            ordering.read = read + 1;
            out.push(next.set);
            proof {
                let after = self@;
                assert(after =~= now.update(c, now[c].passed_on()));
                assert(after =~= before.update(c, after[c]));
                assert forall|k: int| 0 <= k < after.len() implies (#[trigger] after[k]).wf(k) by {
                    assert(now[k].wf(k));
                }
            }
        }
    }

    /// Takes in a frame set and passes on what is due at once, if anything is. Where a frame is
    /// refused, nothing of the set is passed on.
    pub fn order_set(&mut self, frame_set: FrameSet<Vec<Frame<B>>>) -> (r: Result<
        Option<FrameSet<Vec<Frame<B>>>>,
        CodecError,
    >)
        requires
            channels_wf(old(self)@),
            forall|i: int|
                0 <= i < frame_set.set@.len() ==> ((
                #[trigger] frame_set.set@[i]).ordered matches Some(o) ==> o.frame_index.wf()),
        ensures
            channels_wf(final(self)@),
            ({
                let (channels, out, e) = ordered_all(
                    old(self)@,
                    frame_set.seq_num,
                    frame_set.set@,
                );
                &&& final(self)@ == channels
                &&& match e {
                    Some(e) => r matches Err(err) && err == CodecError::OrderedFrame(e),
                    None => if out.len() == 0 {
                        r matches Ok(None)
                    } else {
                        r matches Ok(Some(set)) && set.seq_num == frame_set.seq_num && set.set@
                            == out
                    },
                }
            }),
    {
        let ghost before = self@;
        let seq_num = frame_set.seq_num;
        let ghost fs = frame_set.set@;
        let mut out: Vec<Frame<B>> = Vec::new();
        assert(fs.take(0) =~= Seq::empty());
        for frame in iter: frame_set.set.into_iter()
            invariant
                iter.seq() == fs,
                fs == frame_set.set@,
                seq_num == frame_set.seq_num,
                before == old(self)@,
                channels_wf(self@),
                forall|i: int|
                    0 <= i < fs.len() ==> ((#[trigger] fs[i]).ordered matches Some(o)
                        ==> o.frame_index.wf()),
                ordered_all(before, seq_num, fs.take(iter.index() as int)) == (
                    self@,
                    out@,
                    None::<ChannelError>,
                ),
        {
            let ghost i = iter.index() as int;
            proof {
                assert(frame == fs[i]);
                assert(fs.take(i + 1).drop_last() =~= fs.take(i));
                assert(fs.take(i + 1).last() == frame);
            }
            let ghost here = self@;
            let ordered = frame.ordered;
            match self.accept(FrameSet { seq_num, set: frame }) {
                Ok(Some(set)) => {
                    out.push(set.set);
                },
                Ok(None) => {
                    if let Some(Ordered { frame_index, channel }) = ordered {
                        let ghost c = channel as int;
                        let ghost mid = self@;
                        self.drain(channel as usize, &mut out);
                        assert(mid.update(c, self@[c]) =~= here.update(c, self@[c]));
                    }
                },
                Err(e) => {
                    proof {
                        lemma_order_stops(before, seq_num, fs, i + 1);
                    }
                    return Err(e);
                },
            }
        }
        assert(fs.take(fs.len() as int) =~= fs);
        if out.len() == 0 {
            return Ok(None);
        }
        Ok(Some(FrameSet { seq_num, set: out }))
    }
}

/// Nothing is ordered behind a frame that is refused.
proof fn lemma_order_stops<B>(
    channels: Seq<ChannelView<B>>,
    seq_num: u24,
    fs: Seq<Frame<B>>,
    n: int,
)
    requires
        0 <= n <= fs.len(),
        ordered_all(channels, seq_num, fs.take(n)).2 is Some,
    ensures
        ordered_all(channels, seq_num, fs) == ordered_all(channels, seq_num, fs.take(n)),
    decreases fs.len() - n,
{
    if n == fs.len() {
        assert(fs.take(n) =~= fs);
    } else {
        assert(fs.take(n + 1).drop_last() =~= fs.take(n));
        lemma_order_stops(channels, seq_num, fs, n + 1);
    }
}

/// Once nothing more is due, every frame of a channel was passed on that came without a gap
/// behind the first, and no other: `read` is the first index that did not arrive.
pub proof fn lemma_passed_on<B>(channels: Seq<ChannelView<B>>, c: int)
    requires
        first_due(channels, 0) == channels.len(),
        0 <= c < channels.len(),
    ensures
        !channels[c].arrived().contains(channels[c].read),
        forall|i: u32| i < channels[c].read ==> channels[c].arrived().contains(i),
{
    lemma_first_due(channels, 0);
}

/// A channel that is passed over has nothing to pass on.
pub proof fn lemma_first_due<B>(channels: Seq<ChannelView<B>>, from: int)
    requires
        0 <= from <= channels.len(),
    ensures
        from <= first_due(channels, from) <= channels.len(),
        first_due(channels, from) < channels.len() ==> channels[first_due(channels, from)].due(),
        forall|c: int| from <= c < first_due(channels, from) ==> !(#[trigger] channels[c]).due(),
    decreases channels.len() - from,
{
    if from < channels.len() && !channels[from].due() {
        lemma_first_due(channels, from + 1);
    }
}

} // verus!
