//! In which order frames leave the layers that they go through when they arrive.
use bytes::Bytes;
use vstd::prelude::*;

use crate::codec::decoder::ordered::{channels_wf, first_due, lemma_first_due};
use crate::codec::pipeline::{pull, Pulled, Stock};
use crate::packet::connected::frame::{Frame, Ordered};
use crate::packet::connected::frame_set::FrameSet;
use crate::uint24::u24;

verus! {

/// The channels are in order, and every place fits in 24 bits.
pub open spec fn stock_wf(s: Stock) -> bool {
    &&& channels_wf(s.channels)
    &&& forall|i: int|
        0 <= i < s.ready.len() ==> ((#[trigger] s.ready[i]).set.ordered matches Some(o)
            ==> o.frame_index.wf())
}

/// One of the first `n` frames has the place `i` on the channel `c`.
pub open spec fn placed(ready: Seq<FrameSet<Frame<Bytes>>>, n: int, c: int, i: u32) -> bool {
    exists|j: int|
        0 <= j < n && (#[trigger] ready[j]).set.ordered == Some(
            Ordered { frame_index: u24(i), channel: c as u8 },
        )
}

/// The first `n` frames all have a place on a channel that there is.
pub open spec fn all_placed(ready: Seq<FrameSet<Frame<Bytes>>>, n: int, channels: nat) -> bool {
    forall|j: int|
        0 <= j < n ==> ((#[trigger] ready[j]).set.ordered matches Some(o) && o.channel < channels)
}

/// No frame was passed on: on every channel the same one is due next.
pub open spec fn same_reads(s: Stock, t: Stock) -> bool {
    forall|c: int| 0 <= c < s.channels.len() ==> (#[trigger] t.channels[c]).read
        == s.channels[c].read
}

/// What is taken out of `s`, after `n` of the frames that were ready were looked at.
pub open spec fn released(s: Stock, t: Stock, p: Pulled, n: int) -> bool {
    let len = s.channels.len();
    &&& 0 <= n <= s.ready.len()
    &&& t.ready == s.ready.skip(n)
    &&& t.channels.len() == len
    &&& stock_wf(t)
    &&& forall|c: int, i: u32|
        0 <= c < len ==> (#[trigger] t.channels[c].arrived().contains(i)
            <==> s.channels[c].arrived().contains(i) || placed(s.ready, n, c, i))
    &&& match p {
        Pulled::Frame(f) => match f.set.ordered {
            None => {
                &&& n > 0
                &&& f == s.ready[n - 1]
                &&& all_placed(s.ready, n - 1, len)
                &&& same_reads(s, t)
            },
            Some(o) => {
                let c = o.channel as int;
                &&& all_placed(s.ready, n, len)
                &&& c < len
                &&& o.frame_index == u24(s.channels[c].read)
                &&& t.channels[c].read == s.channels[c].read + 1
                &&& forall|k: int|
                    0 <= k < len && k != c ==> (#[trigger] t.channels[k]).read
                        == s.channels[k].read
                &&& (s.channels[c].held.contains_key(s.channels[c].read)
                    && s.channels[c].held[s.channels[c].read] == f) || exists|j: int|
                    0 <= j < n && s.ready[j] == f
            },
        },
        Pulled::Refused(e) => {
            &&& n > 0
            &&& all_placed(s.ready, n - 1, len)
            &&& same_reads(s, t)
            &&& s.ready[n - 1].set.ordered matches Some(o) && o.channel >= len && e.channel
                == o.channel && e.max_channels == len
        },
        Pulled::Nothing => {
            &&& n == s.ready.len()
            &&& all_placed(s.ready, n, len)
            &&& same_reads(s, t)
            &&& forall|c: int| 0 <= c < len ==> !(#[trigger] t.channels[c]).due()
        },
    }
}

proof fn lemma_with_first(s: Stock)
    requires
        stock_wf(s),
        s.ready.len() > 0,
        s.ready[0].set.ordered matches Some(o) && o.channel < s.channels.len(),
    ensures
        ({
            let first = s.ready[0];
            let o = first.set.ordered->Some_0;
            let k = o.channel as int;
            let s1 = Stock {
                channels: s.channels.update(
                    k,
                    s.channels[k].with_frame(o.frame_index.0, first),
                ),
                ready: s.ready.skip(1),
            };
            &&& stock_wf(s1)
            &&& same_reads(s, s1)
            &&& forall|c: int, i: u32|
                0 <= c < s.channels.len() ==> (#[trigger] s1.channels[c].arrived().contains(i)
                    <==> s.channels[c].arrived().contains(i) || first.set.ordered == Some(
                    Ordered { frame_index: u24(i), channel: c as u8 },
                ))
        }),
{
    let first = s.ready[0];
    let o = first.set.ordered->Some_0;
    let k = o.channel as int;
    let s1 = Stock {
        channels: s.channels.update(k, s.channels[k].with_frame(o.frame_index.0, first)),
        ready: s.ready.skip(1),
    };
    assert forall|c: int| 0 <= c < s1.channels.len() implies (#[trigger] s1.channels[c]).wf(c) by {
        assert(s.channels[c].wf(c));
    }
    assert forall|i: int| 0 <= i < s1.ready.len() implies ((
    #[trigger] s1.ready[i]).set.ordered matches Some(o) ==> o.frame_index.wf()) by {
        assert(s1.ready[i] == s.ready[i + 1]);
    }
}

/// How frames leave, one at a time. On a channel they come out in the order of their places,
/// without a gap: each has the place that was due. A frame without a place comes out in its turn
/// among those that are ready, and none is passed over: all before it had a place. A frame that
/// names a channel which there is not is refused by name. Nothing comes out only where nothing is
/// ready any more and on no channel the frame that is due is there. What has a place is never
/// forgotten.
pub proof fn lemma_released(s: Stock)
    requires
        stock_wf(s),
    ensures
        exists|n: int| #[trigger] released(s, pull(s).0, pull(s).1, n),
    decreases s.ready.len(),
{
    let (t, p) = pull(s);
    let due = first_due(s.channels, 0);
    lemma_first_due(s.channels, 0);
    if due < s.channels.len() {
        assert(s.channels[due].wf(due));
        assert forall|c: int| 0 <= c < t.channels.len() implies (#[trigger] t.channels[c]).wf(c) by {
            assert(s.channels[c].wf(c));
        }
        assert(t.ready =~= s.ready.skip(0));
        assert(released(s, t, p, 0));
    } else if s.ready.len() == 0 {
        assert(t.ready =~= s.ready.skip(0));
        assert(released(s, t, p, 0));
    } else {
        let first = s.ready[0];
        match first.set.ordered {
            None => {
                assert forall|i: int| 0 <= i < t.ready.len() implies ((
                #[trigger] t.ready[i]).set.ordered matches Some(o) ==> o.frame_index.wf()) by {
                    assert(t.ready[i] == s.ready[i + 1]);
                }
                assert(released(s, t, p, 1));
            },
            Some(o) => {
                if o.channel >= s.channels.len() {
                    assert forall|i: int| 0 <= i < t.ready.len() implies ((
                    #[trigger] t.ready[i]).set.ordered matches Some(o) ==> o.frame_index.wf()) by {
                        assert(t.ready[i] == s.ready[i + 1]);
                    }
                    assert(released(s, t, p, 1)) by {
                        assert forall|c: int, i: u32| 0 <= c < s.channels.len() implies !placed(
                            s.ready,
                            1,
                            c,
                            i,
                        ) by {}
                    }
                } else {
                    lemma_with_first(s);
                    let k = o.channel as int;
                    let s1 = Stock {
                        channels: s.channels.update(
                            k,
                            s.channels[k].with_frame(o.frame_index.0, first),
                        ),
                        ready: s.ready.skip(1),
                    };
                    lemma_released(s1);
                    let n = choose|n: int| #[trigger] released(s1, t, p, n);
                    assert forall|j: int| 0 <= j < s1.ready.len() implies s1.ready[j] == s.ready[j
                        + 1] by {}
                    lemma_one_earlier(s, s1, t, p, n);
                }
            },
        }
    }
}

proof fn lemma_one_earlier(s: Stock, s1: Stock, t: Stock, p: Pulled, n: int)
    requires
        stock_wf(s),
        s.ready.len() > 0,
        s.ready[0].set.ordered matches Some(o) && o.channel < s.channels.len(),
        ({
            let o = s.ready[0].set.ordered->Some_0;
            let k = o.channel as int;
            s1 == (Stock {
                channels: s.channels.update(
                    k,
                    s.channels[k].with_frame(o.frame_index.0, s.ready[0]),
                ),
                ready: s.ready.skip(1),
            })
        }),
        released(s1, t, p, n),
    ensures
        released(s, t, p, n + 1),
{
    let len = s.channels.len();
    let first = s.ready[0];
    lemma_with_first(s);
    assert(t.ready =~= s.ready.skip(n + 1));
    assert forall|m: int| 0 <= m <= s1.ready.len() && all_placed(s1.ready, m, len) implies #[trigger] all_placed(
        s.ready,
        m + 1,
        len,
    ) by {
        assert forall|j: int| 0 <= j < m + 1 implies ((
        #[trigger] s.ready[j]).set.ordered matches Some(o) && o.channel < len) by {
            if j > 0 {
                assert(s1.ready[j - 1] == s.ready[j]);
            }
        }
    }
    assert forall|c: int, i: u32| 0 <= c < len implies (
    #[trigger] t.channels[c].arrived().contains(i) <==> s.channels[c].arrived().contains(i)
        || placed(s.ready, n + 1, c, i)) by {
        let place = Some(Ordered { frame_index: u24(i), channel: c as u8 });
        assert(s1.channels[c].arrived().contains(i) <==> s.channels[c].arrived().contains(i)
            || first.set.ordered == place);
        assert(t.channels[c].arrived().contains(i) <==> s1.channels[c].arrived().contains(i)
            || placed(s1.ready, n, c, i));
        if placed(s1.ready, n, c, i) {
            let j = choose|j: int| 0 <= j < n && (#[trigger] s1.ready[j]).set.ordered == place;
            assert(s.ready[j + 1].set.ordered == place);
        }
        if placed(s.ready, n + 1, c, i) {
            let j = choose|j: int| 0 <= j < n + 1 && (#[trigger] s.ready[j]).set.ordered == place;
            if j > 0 {
                assert(s1.ready[j - 1].set.ordered == place);
            }
        }
    }
    match p {
        Pulled::Frame(f) => {
            match f.set.ordered {
                None => {
                    assert(s1.ready[n - 1] == s.ready[n]);
                    assert(all_placed(s.ready, n - 1 + 1, len));
                },
                Some(o) => {
                    let c = o.channel as int;
                    assert(all_placed(s.ready, n + 1, len));
                    if exists|j: int| 0 <= j < n && s1.ready[j] == f {
                        let j = choose|j: int| 0 <= j < n && s1.ready[j] == f;
                        assert(s.ready[j + 1] == f);
                    } else {
                        let read = s.channels[c].read;
                        if !(s.channels[c].held.contains_key(read) && s.channels[c].held[read]
                            == f) {
                            assert(f == first);
                            assert(s.ready[0] == f);
                        }
                    }
                },
            }
        },
        Pulled::Refused(e) => {
            assert(s1.ready[n - 1] == s.ready[n]);
            assert(all_placed(s.ready, n - 1 + 1, len));
        },
        Pulled::Nothing => {
            assert(all_placed(s.ready, n + 1, len));
        },
    }
}

} // verus!
