//! Fragmentation: a message that is too large for a packet is split.
use bytes::Bytes;
use vstd::prelude::*;

use crate::buf::{bytes_len, bytes_split_to, Contents};
use crate::message::Message;
use crate::packet::connected::flags::Flags;
use crate::packet::connected::frame::{self, Frame, Ordered, FRAGMENT_PART_SIZE};
use crate::packet::connected::frame_set::{frames_view, FRAME_SET_HEADER_SIZE};
use crate::packet::connected::reliability::Reliability;
use crate::uint24::{u24, U24_RANGE};

verus! {

/// The number `n` places behind `idx`; the numbers start over after the last.
pub open spec fn advanced(idx: u24, n: int) -> u24 {
    u24(((idx.0 + n) % U24_RANGE as int) as u32)
}

/// The reliability of a split message: every part must arrive.
pub open spec fn upgraded(r: Reliability) -> Reliability {
    match r {
        Reliability::Unreliable => Reliability::Reliable,
        Reliability::UnreliableSequenced => Reliability::ReliableSequenced,
        Reliability::UnreliableWithAckReceipt => Reliability::ReliableWithAckReceipt,
        _ => r,
    }
}

/// How long the body of a frame can be that is not split.
pub open spec fn max_len(mtu: int, r: Reliability) -> int {
    mtu - FRAME_SET_HEADER_SIZE - r.header_size()
}

/// How long the body of a part can be.
pub open spec fn part_len(mtu: int, r: Reliability) -> int {
    max_len(mtu, r) - FRAGMENT_PART_SIZE
}

/// A message of `len` bytes must be split.
pub open spec fn needs_split(mtu: int, r: Reliability, len: int) -> bool {
    len > max_len(mtu, r)
}

/// In how many parts `len` bytes are split, where a part has at most `per` of them.
pub open spec fn part_count(len: int, per: int) -> int {
    if len % per == 0 {
        len / per
    } else {
        len / per + 1
    }
}

/// The packets are large enough for a message of `len` bytes, and its parts can be counted.
pub open spec fn fits(mtu: int, r: Reliability, len: int) -> bool {
    &&& max_len(mtu, r) >= 0
    &&& needs_split(mtu, r, len) ==> part_len(mtu, upgraded(r)) > 0 && part_count(
        len,
        part_len(mtu, upgraded(r)),
    ) <= u32::MAX
}

/// Bytes `i * per` and following of `data`, at most `per` of them.
pub open spec fn part_body(data: Seq<u8>, per: int, i: int) -> Seq<u8> {
    data.subrange(
        i * per,
        if (i + 1) * per <= data.len() {
            (i + 1) * per
        } else {
            data.len() as int
        },
    )
}

/// What numbers the next frames.
pub ghost struct Counters {
    /// The number of the next reliable frame.
    pub reliable: u24,
    /// The place of the next ordered message, for each channel.
    pub order: Seq<u24>,
    /// The number of the next split message.
    pub parted_id: u16,
}

/// A frame of this reliability, numbered `n` places behind the next.
pub open spec fn numbered(
    c: Counters,
    r: Reliability,
    channel: u8,
    n: int,
    fragment: Option<frame::Fragment>,
    body: Seq<u8>,
) -> Frame<Seq<u8>> {
    Frame {
        flags: Flags::of_reliability(r, fragment is Some),
        reliable_frame_index: if r.reliable() {
            Some(advanced(c.reliable, n))
        } else {
            None
        },
        seq_frame_index: None,
        ordered: if r.sequenced_or_ordered() {
            Some(Ordered { frame_index: c.order[channel as int], channel })
        } else {
            None
        },
        fragment,
        body,
    }
}

/// The frames of a message.
pub open spec fn frames_of(
    c: Counters,
    mtu: int,
    r: Reliability,
    channel: u8,
    data: Seq<u8>,
) -> Seq<Frame<Seq<u8>>> {
    if needs_split(mtu, r, data.len() as int) {
        let per = part_len(mtu, upgraded(r));
        let count = part_count(data.len() as int, per);
        Seq::new(
            count as nat,
            |i: int|
                numbered(
                    c,
                    upgraded(r),
                    channel,
                    i,
                    Some(
                        frame::Fragment {
                            parted_size: count as u32,
                            parted_id: c.parted_id,
                            parted_index: i as u32,
                        },
                    ),
                    part_body(data, per, i),
                ),
        )
    } else {
        seq![numbered(c, r, channel, 0, None, data)]
    }
}

/// What numbers the frames behind those of a message.
pub open spec fn counters_after(
    c: Counters,
    mtu: int,
    r: Reliability,
    channel: u8,
    data: Seq<u8>,
) -> Counters {
    let split = needs_split(mtu, r, data.len() as int);
    let used = if split {
        upgraded(r)
    } else {
        r
    };
    Counters {
        reliable: if used.reliable() {
            advanced(c.reliable, frames_of(c, mtu, r, channel, data).len() as int)
        } else {
            c.reliable
        },
        order: if used.sequenced_or_ordered() {
            c.order.update(channel as int, c.order[channel as int].succ())
        } else {
            c.order
        },
        parted_id: if split {
            ((c.parted_id + 1) % 0x1_0000) as u16
        } else {
            c.parted_id
        },
    }
}

/// The fragmentation layer.
#[derive(Debug)]
pub struct Fragment {
    pub mtu: usize,
    pub reliable_write_index: u24,
    pub order_write_index: Vec<u24>,
    pub parted_id_write: u16,
}

/// The reliability of a split message.
pub(crate) fn upgrade(r: Reliability) -> (u: Reliability)
    ensures
        u == upgraded(r),
{
    match r {
        Reliability::Unreliable => Reliability::Reliable,
        Reliability::UnreliableSequenced => Reliability::ReliableSequenced,
        Reliability::UnreliableWithAckReceipt => Reliability::ReliableWithAckReceipt,
        _ => r,
    }
}

impl Fragment {
    /// What numbers the next frames.
    pub open spec fn counters(self) -> Counters {
        Counters {
            reliable: self.reliable_write_index,
            order: self.order_write_index@,
            parted_id: self.parted_id_write,
        }
    }

    /// Every number fits in 24 bits.
    pub open spec fn wf(self) -> bool {
        &&& self.reliable_write_index.wf()
        &&& forall|i: int|
            0 <= i < self.order_write_index@.len() ==> (#[trigger] self.order_write_index@[i]).wf()
    }

    /// A layer for packets of `mtu` bytes with this many order channels.
    pub fn new(mtu: usize, max_channels: usize) -> (r: Fragment)
        ensures
            r.wf(),
            r.mtu == mtu,
            r.counters() == (Counters {
                reliable: u24(0),
                order: Seq::new(max_channels as nat, |i: int| u24(0)),
                parted_id: 0,
            }),
    {
        let mut order_write_index: Vec<u24> = Vec::new();
        let mut i: usize = 0;
        while i < max_channels
            invariant
                i <= max_channels,
                order_write_index@ == Seq::new(i as nat, |i: int| u24(0)),
            decreases max_channels - i,
        {
            order_write_index.push(u24(0));
            i = i + 1;
            assert(order_write_index@ =~= Seq::new(i as nat, |i: int| u24(0)));
        }
        Fragment { mtu, reliable_write_index: u24(0), order_write_index, parted_id_write: 0 }
    }

    /// The numbers of the next frame. Each frame has its own, to ensure that it is not
    /// duplicated; the place on the channel is the same for all parts of a message.
    fn indices_for_frame(&mut self, reliability: Reliability, channel: u8) -> (r: (
        Option<u24>,
        Option<Ordered>,
    ))
        requires
            old(self).wf(),
            channel < old(self).order_write_index@.len(),
        ensures
            final(self).wf(),
            r.0 == (if reliability.reliable() {
                Some(old(self).reliable_write_index)
            } else {
                None
            }),
            r.1 == (if reliability.sequenced_or_ordered() {
                Some(
                    Ordered {
                        frame_index: old(self).order_write_index@[channel as int],
                        channel,
                    },
                )
            } else {
                None
            }),
            final(self).mtu == old(self).mtu,
            final(self).order_write_index == old(self).order_write_index,
            final(self).parted_id_write == old(self).parted_id_write,
            final(self).reliable_write_index == (if reliability.reliable() {
                old(self).reliable_write_index.succ()
            } else {
                old(self).reliable_write_index
            }),
    {
        let reliable_frame_index = if reliability.is_reliable() {
            let index = self.reliable_write_index;
            self.reliable_write_index = index.next();
            Some(index)
        } else {
            None
        };
        let ordered = if reliability.is_sequenced_or_ordered() {
            Some(Ordered { frame_index: self.order_write_index[channel as usize], channel })
        } else {
            None
        };
        (reliable_frame_index, ordered)
    }

    /// A message was sent on the channel.
    fn advance_order(&mut self, reliability: Reliability, channel: u8)
        requires
            old(self).wf(),
            channel < old(self).order_write_index@.len(),
        ensures
            final(self).wf(),
            final(self).counters() == (Counters {
                order: if reliability.sequenced_or_ordered() {
                    old(self).order_write_index@.update(
                        channel as int,
                        old(self).order_write_index@[channel as int].succ(),
                    )
                } else {
                    old(self).order_write_index@
                },
                ..old(self).counters()
            }),
            final(self).mtu == old(self).mtu,
    {
        if reliability.is_sequenced_or_ordered() {
            let next = self.order_write_index[channel as usize].next();
            self.order_write_index[channel as usize] = next;
        }
    }

    /// Whether a message can be sent: there is its channel, and the packets are large enough.
    pub fn accepts(&self, msg: &Message) -> (r: bool)
        ensures
            r == (msg.order_channel < self.order_write_index@.len() && fits(
                self.mtu as int,
                msg.reliability,
                msg.data.seq().len() as int,
            )),
    {
        let len: usize = bytes_len(&msg.data);
        let header: usize = FRAME_SET_HEADER_SIZE + msg.reliability.size();
        if msg.order_channel as usize >= self.order_write_index.len() || self.mtu < header {
            return false;
        }
        if len <= self.mtu - header {
            return true;
        }
        let header: usize = FRAME_SET_HEADER_SIZE + upgrade(msg.reliability).size()
            + FRAGMENT_PART_SIZE;
        if self.mtu <= header {
            return false;
        }
        let per: usize = self.mtu - header;
        proof {
            lemma_part_count(len as int, per as int);
        }
        let whole: usize = len / per;
        if len % per == 0 {
            whole as u64 <= u32::MAX as u64
        } else {
            (whole as u64) < u32::MAX as u64
        }
    }

    /// The frames that carry a message, in the order they are to be sent in.
    pub fn fragment(&mut self, msg: Message) -> (r: Vec<Frame<Bytes>>)
        requires
            old(self).wf(),
            msg.order_channel < old(self).order_write_index@.len(),
            fits(old(self).mtu as int, msg.reliability, msg.data.seq().len() as int),
        ensures
            final(self).wf(),
            final(self).mtu == old(self).mtu,
            frames_view(r@) == frames_of(
                old(self).counters(),
                old(self).mtu as int,
                msg.reliability,
                msg.order_channel,
                msg.data.seq(),
            ),
            final(self).counters() == counters_after(
                old(self).counters(),
                old(self).mtu as int,
                msg.reliability,
                msg.order_channel,
                msg.data.seq(),
            ),
    {
        let ghost start = self.counters();
        let ghost mtu = self.mtu as int;
        let ghost r0 = msg.reliability;
        let channel: u8 = msg.order_channel;
        let mut body = msg.data;
        let ghost data = body.seq();
        let len: usize = bytes_len(&body);
        let mut reliability = msg.reliability;
        if len <= self.mtu - FRAME_SET_HEADER_SIZE - reliability.size() {
            // not exceeding the packet, no need to split
            let mut frames: Vec<Frame<Bytes>> = Vec::new();
            let (reliable_frame_index, ordered) = self.indices_for_frame(reliability, channel);
            self.advance_order(reliability, channel);
            frames.push(
                Frame {
                    flags: Flags::new(reliability, false),
                    reliable_frame_index,
                    seq_frame_index: None,
                    ordered,
                    fragment: None,
                    body,
                },
            );
            assert(advanced(start.reliable, 0) == start.reliable);
            assert(advanced(start.reliable, 1) == start.reliable.succ());
            assert(frames_view(frames@) =~= frames_of(start, mtu, r0, channel, data));
            return frames;
        }
        // every part of a split message must arrive
        reliability = upgrade(reliability);
        let per: usize = self.mtu - FRAME_SET_HEADER_SIZE - reliability.size() - FRAGMENT_PART_SIZE;
        let count: usize = if len % per == 0 {
            len / per
        } else {
            len / per + 1
        };
        let parted_id: u16 = self.parted_id_write;
        self.parted_id_write = if parted_id == u16::MAX {
            0
        } else {
            parted_id + 1
        };
        proof {
            lemma_part_count(len as int, per as int);
            assert(0 * per == 0) by (nonlinear_arith);
            assert(advanced(start.reliable, 0) == start.reliable);
        }
        let frames = self.split(
            reliability,
            channel,
            parted_id,
            count as u32,
            per,
            body,
            Ghost(start),
        );
        self.advance_order(reliability, channel);
        assert(frames_view(frames@) =~= frames_of(start, mtu, r0, channel, data));
        frames
    }

    /// The parts of a message.
    fn split(
        &mut self,
        reliability: Reliability,
        channel: u8,
        parted_id: u16,
        parted_size: u32,
        per: usize,
        data: Bytes,
        Ghost(start): Ghost<Counters>,
    ) -> (r: Vec<Frame<Bytes>>)
        requires
            old(self).wf(),
            channel < old(self).order_write_index@.len(),
            per > 0,
            parted_size == part_count(data.seq().len() as int, per as int),
            start.reliable == old(self).reliable_write_index,
            start.order == old(self).order_write_index@,
            start.parted_id == parted_id,
        ensures
            final(self).wf(),
            final(self).mtu == old(self).mtu,
            final(self).order_write_index == old(self).order_write_index,
            final(self).parted_id_write == old(self).parted_id_write,
            final(self).reliable_write_index == (if reliability.reliable() {
                advanced(start.reliable, parted_size as int)
            } else {
                start.reliable
            }),
            frames_view(r@) == Seq::new(
                parted_size as nat,
                |i: int|
                    numbered(
                        start,
                        reliability,
                        channel,
                        i,
                        Some(frame::Fragment { parted_size, parted_id, parted_index: i as u32 }),
                        part_body(data.seq(), per as int, i),
                    ),
            ),
    {
        let ghost all = data.seq();
        let mut body = data;
        let mut frames: Vec<Frame<Bytes>> = Vec::new();
        let mut parted_index: u32 = 0;
        proof {
            lemma_part_count(all.len() as int, per as int);
            assert(0 * per == 0) by (nonlinear_arith);
            assert(all.skip(0) =~= all);
            assert(advanced(start.reliable, 0) == start.reliable);
        }
        while parted_index < parted_size
            invariant
                parted_index <= parted_size,
                per > 0,
                parted_size == part_count(all.len() as int, per as int),
                self.wf(),
                channel < self.order_write_index@.len(),
                self.mtu == old(self).mtu,
                self.order_write_index == old(self).order_write_index,
                self.parted_id_write == old(self).parted_id_write,
                start.order == self.order_write_index@,
                self.reliable_write_index == (if reliability.reliable() {
                    advanced(start.reliable, parted_index as int)
                } else {
                    start.reliable
                }),
                parted_index < parted_size ==> parted_index * per < all.len(),
                parted_index < parted_size ==> body.seq() == all.skip(parted_index * per),
                start.reliable.wf(),
                frames@.len() == parted_index,
                forall|i: int|
                    0 <= i < parted_index ==> (#[trigger] frames@[i])@ == numbered(
                        start,
                        reliability,
                        channel,
                        i,
                        Some(frame::Fragment { parted_size, parted_id, parted_index: i as u32 }),
                        part_body(all, per as int, i),
                    ),
            decreases parted_size - parted_index,
        {
            let (reliable_frame_index, ordered) = self.indices_for_frame(reliability, channel);
            let ghost i = parted_index as int;
            let left: usize = bytes_len(&body);
            let at: usize = if per < left {
                per
            } else {
                left
            };
            let part = bytes_split_to(&mut body, at);
            proof {
                lemma_part_count(all.len() as int, per as int);
                assert((i + 1) * per == i * per + per) by (nonlinear_arith);
                assert(part.seq() =~= part_body(all, per as int, i));
                if i + 1 < parted_size {
                    assert((i + 1) * per <= (parted_size - 1) * per) by (nonlinear_arith)
                        requires
                            i + 1 < parted_size,
                            per > 0,
                    ;
                    assert(body.seq() =~= all.skip((i + 1) * per));
                }
                assert(advanced(start.reliable, i).succ() == advanced(start.reliable, i + 1));
            }
            frames.push(
                Frame {
                    flags: Flags::new(reliability, true),
                    reliable_frame_index,
                    seq_frame_index: None,
                    ordered,
                    fragment: Some(frame::Fragment { parted_size, parted_id, parted_index }),
                    body: part,
                },
            );
            parted_index = parted_index + 1;
        }
        assert(frames_view(frames@) =~= Seq::new(
            parted_size as nat,
            |i: int|
                numbered(
                    start,
                    reliability,
                    channel,
                    i,
                    Some(frame::Fragment { parted_size, parted_id, parted_index: i as u32 }),
                    part_body(all, per as int, i),
                ),
        ));
        frames
    }
}

/// The parts cover all bytes, and the last one is not empty.
pub proof fn lemma_part_count(len: int, per: int)
    requires
        len >= 0,
        per > 0,
    ensures
        part_count(len, per) >= 0,
        len == 0 ==> part_count(len, per) == 0,
        len > 0 ==> part_count(len, per) > 0,
        len <= part_count(len, per) * per,
        len > 0 ==> (part_count(len, per) - 1) * per < len,
{
    let q = len / per;
    vstd::arithmetic::div_mod::lemma_fundamental_div_mod(len, per);
    assert(len == per * q + len % per);
    assert((q + 1) * per == per * q + per && (q - 1) * per == per * q - per && q * per == per * q)
        by (nonlinear_arith);
    assert(q >= 0) by (nonlinear_arith)
        requires
            q == len / per,
            len >= 0,
            per > 0,
    ;
    if len == 0 {
        vstd::arithmetic::div_mod::lemma_small_mod(0, per as nat);
        assert(q == 0) by (nonlinear_arith)
            requires
                0 == per * q + 0,
                per > 0,
        ;
    }
    if len > 0 && len % per == 0 {
        assert(q > 0) by (nonlinear_arith)
            requires
                len == per * q + 0,
                len > 0,
                per > 0,
        ;
    }
}

} // verus!
