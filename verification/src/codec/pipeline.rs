//! The whole way in: from frame sets to bodies, deduplicated, defragmented and ordered.
use bytes::{Bytes, BytesMut};
use vstd::prelude::*;

use crate::codec::config::Config;
use crate::codec::decoder::body::decode_body;
use crate::codec::decoder::dedup::{fresh_frames, lemma_fresh_members, numbers_seen, Dedup};
use crate::codec::decoder::fragment::{
    accepted, all_deliverable, deliverable, lemma_all_deliverable, Collected, DeFragment,
};
use crate::codec::decoder::ordered::{channels_wf, first_due, lemma_first_due, ChannelView, Order};
use crate::errors::{ChannelError, CodecError};
use crate::link::{LinkView, TransferLink};
use crate::packet::connected::body::{parse_body, PlainBody};
use crate::packet::connected::frame::{Frame, Ordered};
use crate::packet::connected::frame_set::{frames_view, frames_wf, FrameSet};
use crate::uint24::u24;

verus! {

/// What waits behind the layers: the frames on their order channels, and those that are ready to
/// go there.
pub ghost struct Stock {
    pub channels: Seq<ChannelView<Bytes>>,
    pub ready: Seq<FrameSet<Frame<Bytes>>>,
}

/// What is taken out.
pub ghost enum Pulled {
    /// A frame.
    Frame(FrameSet<Frame<Bytes>>),
    /// A frame was refused.
    Refused(ChannelError),
    /// Nothing is there.
    Nothing,
}

/// Takes out the next frame, and what is left. A frame that is due on a channel comes first; then
/// the frames that are ready are looked at in order: one that is not ordered is taken, and any
/// other goes to its channel.
pub open spec fn pull(s: Stock) -> (Stock, Pulled)
    decreases s.ready.len(),
{
    let c = first_due(s.channels, 0);
    if c < s.channels.len() {
        (
            Stock { channels: s.channels.update(c, s.channels[c].passed_on()), ..s },
            Pulled::Frame(s.channels[c].held[s.channels[c].read]),
        )
    } else if s.ready.len() == 0 {
        (s, Pulled::Nothing)
    } else {
        let first = s.ready[0];
        let rest = Stock { ready: s.ready.skip(1), ..s };
        match first.set.ordered {
            None => (rest, Pulled::Frame(first)),
            Some(Ordered { frame_index, channel }) => {
                if channel >= s.channels.len() {
                    (
                        rest,
                        Pulled::Refused(
                            ChannelError {
                                channel: channel as usize,
                                max_channels: s.channels.len() as usize,
                            },
                        ),
                    )
                } else {
                    let k = channel as int;
                    pull(
                        Stock {
                            channels: s.channels.update(
                                k,
                                s.channels[k].with_frame(frame_index.0, first),
                            ),
                            ..rest
                        },
                    )
                }
            },
        }
    }
}

/// Every frame that waits can be passed on.
pub open spec fn stock_deliverable(s: Stock) -> bool {
    &&& forall|c: int, i: u32|
        0 <= c < s.channels.len() && #[trigger] s.channels[c].held.contains_key(i) ==> deliverable(
            s.channels[c].held[i].set@,
        )
    &&& forall|i: int| 0 <= i < s.ready.len() ==> deliverable((#[trigger] s.ready[i]).set@)
}

/// Converts frame sets into the bodies that they carry.
pub struct Decoder {
    pub dedup: Dedup,
    pub defragment: DeFragment,
    pub order: Order<Bytes>,
}

impl Decoder {
    /// Every layer is in order, and every frame that waits can be passed on.
    pub open spec fn wf(self) -> bool {
        &&& self.dedup.window.wf()
        &&& self.defragment.wf()
        &&& all_deliverable(self.defragment.collected())
        &&& channels_wf(self.order@)
        &&& stock_deliverable(self.stock())
    }

    /// What waits behind the layers.
    pub open spec fn stock(self) -> Stock {
        Stock { channels: self.order@, ready: self.defragment.buffer@ }
    }

    /// Layers that nothing passed yet.
    pub fn new(config: Config) -> (r: Decoder)
        requires
            0 < config.max_parted_count <= isize::MAX / 64,
            0 < config.max_channels <= u8::MAX,
        ensures
            r.wf(),
            r.dedup.window.received() == Set::<u24>::empty(),
            r.defragment.limit_size == config.max_parted_size,
            r.defragment.cap() == config.max_parted_count,
            r.defragment.collected() == (Collected { parts: Seq::empty(), ready: Seq::empty() }),
            r.defragment.seq_num_read_index == u24(0),
            r.order@ == Seq::new(
                config.max_channels as nat,
                |i: int| ChannelView::<Bytes> { held: Map::empty(), read: 0 },
            ),
    {
        let r = Decoder {
            dedup: Dedup::new(),
            defragment: DeFragment::new(config.max_parted_size, config.max_parted_count),
            order: Order::new(config.max_channels),
        };
        proof {
            assert(r.defragment.collected().ready.len() == r.defragment.buffer@.len());
        }
        r
    }

    /// Takes in a frame set: frames that arrived before are dropped, and what is left goes to the
    /// next layer, if anything is.
    pub fn accept(&mut self, link: &mut TransferLink, frame_set: FrameSet<Vec<Frame<BytesMut>>>) -> (r:
        Result<(), CodecError>)
        requires
            old(self).wf(),
            old(link).wf(),
            frame_set.seq_num.wf(),
            frames_wf(frames_view(frame_set.set@)),
        ensures
            final(self).wf(),
            final(link).wf(),
            final(self).order@ == old(self).order@,
            ({
                let fs = frames_view(frame_set.set@);
                let seen = old(self).dedup.window.received();
                let fresh = fresh_frames(seen, fs);
                &&& final(self).dedup.window.received() == numbers_seen(seen, fs)
                &&& if fresh.len() == 0 {
                    &&& r == Ok::<(), CodecError>(())
                    &&& final(self).defragment == old(self).defragment
                    &&& final(link)@ == old(link)@
                } else {
                    &&& accepted(
                        old(self).defragment,
                        final(self).defragment,
                        frame_set.seq_num,
                        fresh,
                        (old(link)@.outgoing_ack, old(link)@.outgoing_nack),
                        (final(link)@.outgoing_ack, final(link)@.outgoing_nack),
                        r,
                    )
                    &&& final(link)@ == (LinkView {
                        outgoing_ack: final(link)@.outgoing_ack,
                        outgoing_nack: final(link)@.outgoing_nack,
                        ..old(link)@
                    })
                }
            }),
    {
        let ghost fs = frames_view(frame_set.set@);
        let ghost seen = self.dedup.window.received();
        let ghost before = self.defragment.collected();
        let ghost cap = self.defragment.cap();
        let ghost limit = self.defragment.limit_size;
        let ghost seq_num = frame_set.seq_num;
        proof {
            assert forall|i: int| 0 <= i < fs.len() implies ((
            #[trigger] fs[i]).reliable_frame_index matches Some(n) ==> n.wf()) by {
                assert(fs[i].wf());
            }
            lemma_fresh_members(seen, fs);
            let fresh = fresh_frames(seen, fs);
            assert forall|i: int| 0 <= i < fresh.len() implies deliverable(#[trigger] fresh[i]) by {
                assert(fs.contains(fresh[i]));
            }
            self.defragment.lemma_parts_sorted();
            lemma_all_deliverable(before, cap, limit, seq_num, fresh);
        }
        let ghost s = self.stock();
        assert(stock_deliverable(s));
        match self.dedup.deduplicate(frame_set) {
            Some(fresh) => {
                let r = link.defragment(&mut self.defragment, fresh);
                proof {
                    let t = self.stock();
                    assert forall|i: int| 0 <= i < t.ready.len() implies deliverable(
                        (#[trigger] t.ready[i]).set@,
                    ) by {
                        assert(deliverable(self.defragment.collected().ready[i].set));
                    }
                    assert forall|k: int, i: u32|
                        0 <= k < t.channels.len() && #[trigger] t.channels[k].held.contains_key(
                            i,
                        ) implies deliverable(t.channels[k].held[i].set@) by {
                        assert(s.channels[k].held.contains_key(i));
                    }
                }
                r
            },
            None => Ok(()),
        }
    }

    /// The next frame that can be passed on.
    fn next_frame(&mut self) -> (r: Option<Result<FrameSet<Frame<Bytes>>, CodecError>>)
        requires
            old(self).wf(),
        ensures
            final(self).wf(),
            final(self).dedup == old(self).dedup,
            final(self).defragment.collected().parts == old(self).defragment.collected().parts,
            final(self).defragment.seq_num_read_index == old(self).defragment.seq_num_read_index,
            final(self).defragment.limit_size == old(self).defragment.limit_size,
            final(self).defragment.cap() == old(self).defragment.cap(),
            final(self).stock() == pull(old(self).stock()).0,
            match pull(old(self).stock()).1 {
                Pulled::Frame(frame) => {
                    &&& r == Some(Ok::<FrameSet<Frame<Bytes>>, CodecError>(frame))
                    &&& deliverable(frame.set@)
                },
                Pulled::Refused(e) => r == Some(
                    Err::<FrameSet<Frame<Bytes>>, CodecError>(CodecError::OrderedFrame(e)),
                ),
                Pulled::Nothing => r is None,
            },
    {
        let ghost start = self.stock();
        loop
            invariant
                self.wf(),
                start == old(self).stock(),
                self.dedup == old(self).dedup,
                self.defragment.collected().parts == old(self).defragment.collected().parts,
                self.defragment.seq_num_read_index == old(self).defragment.seq_num_read_index,
                self.defragment.limit_size == old(self).defragment.limit_size,
                self.defragment.cap() == old(self).defragment.cap(),
                pull(self.stock()) == pull(start),
            decreases self.defragment.buffer@.len(),
        {
            let ghost s = self.stock();
            proof {
                lemma_first_due(s.channels, 0);
            }
            if let Some(frame_set) = self.order.next_ready() {
                proof {
                    let c = first_due(s.channels, 0);
                    assert(s.channels[c].held.contains_key(s.channels[c].read));
                    let t = self.stock();
                    assert forall|k: int, i: u32|
                        0 <= k < t.channels.len() && #[trigger] t.channels[k].held.contains_key(
                            i,
                        ) implies deliverable(t.channels[k].held[i].set@) by {
                        assert(s.channels[k].held.contains_key(i));
                    }
                }
                return Some(Ok(frame_set));
            }
            match self.defragment.next_ready() {
                None => {
                    return None;
                },
                Some(frame_set) => {
                    proof {
                        assert(deliverable(s.ready[0].set@));
                        let t = self.stock();
                        assert forall|i: int| 0 <= i < t.ready.len() implies deliverable(
                            (#[trigger] t.ready[i]).set@,
                        ) by {
                            assert(t.ready[i] == s.ready[i + 1]);
                        }
                        let c0 = self.defragment.collected();
                        assert forall|i: int| 0 <= i < c0.ready.len() implies deliverable(
                            (#[trigger] c0.ready[i]).set,
                        ) by {
                            assert(deliverable(t.ready[i].set@));
                        }
                    }
                    match self.order.accept(frame_set) {
                        Ok(Some(frame_set)) => {
                            return Some(Ok(frame_set));
                        },
                        Ok(None) => {
                            proof {
                                let t = self.stock();
                                assert forall|k: int, i: u32|
                                    0 <= k < t.channels.len()
                                        && #[trigger] t.channels[k].held.contains_key(
                                        i,
                                    ) implies deliverable(t.channels[k].held[i].set@) by {
                                    if !(s.channels[k].held.contains_key(i)) {
                                        assert(t.channels[k].held[i] == frame_set);
                                    }
                                }
                            }
                        },
                        Err(e) => {
                            return Some(Err(e));
                        },
                    }
                },
            }
        }
    }

    /// The next body that can be passed on, or why a frame was refused. `None` asks for another
    /// frame set.
    pub fn next_body(&mut self) -> (r: Option<Result<PlainBody, CodecError>>)
        requires
            old(self).wf(),
        ensures
            final(self).wf(),
            final(self).dedup == old(self).dedup,
            final(self).defragment.collected().parts == old(self).defragment.collected().parts,
            final(self).defragment.seq_num_read_index == old(self).defragment.seq_num_read_index,
            final(self).defragment.limit_size == old(self).defragment.limit_size,
            final(self).defragment.cap() == old(self).defragment.cap(),
            final(self).stock() == pull(old(self).stock()).0,
            match pull(old(self).stock()).1 {
                Pulled::Frame(frame) => match parse_body(frame.set@.body) {
                    Ok(body) => r matches Some(Ok(b)) && b@ == body,
                    Err(e) => r == Some(Err::<PlainBody, CodecError>(e)),
                },
                Pulled::Refused(e) => r == Some(
                    Err::<PlainBody, CodecError>(CodecError::OrderedFrame(e)),
                ),
                Pulled::Nothing => r is None,
            },
    {
        match self.next_frame() {
            Some(Ok(frame_set)) => Some(decode_body(frame_set)),
            Some(Err(e)) => Some(Err(e)),
            None => None,
        }
    }
}

} // verus!
