//! The layers of the way in for a socket that serves many peers: each peer has its own.
use bytes::{Bytes, BytesMut};
use vstd::prelude::*;

use crate::buf::{bytes_chunk, bytes_len};
use crate::codec::config::CodecConfig;
use crate::codec::decoder::dedup::{fresh_frames, numbers_seen, numbers_wf, Dedup};
use crate::codec::decoder::fragment::{
    bare_frames, collect_all_once, passed_on, Collected, DeFragment,
};
use crate::codec::decoder::ordered::{channels_wf, ordered_all, ChannelView, Order};
use crate::codec::decoder::parts::{lookup, FramePart};
use crate::codec::decoder::passage::lemma_no_parts;
use crate::errors::CodecError;
use crate::packet::address::SocketAddr;
use crate::packet::connected::body::FRAME_BODY;
use crate::packet::connected::frame::Frame;
use crate::packet::connected::frame_set::{frames_view, FrameSet};
use crate::packet::pack_type::{lemma_type_of, type_of, PackType};
use crate::uint24::u24;

verus! {

/// The layers of one peer.
pub struct PeerLayers {
    pub dedup: Dedup,
    pub defragment: DeFragment,
    pub order: Order<Bytes>,
}

/// The layers of all peers.
pub struct PeerCodec {
    pub config: CodecConfig,
    pub max_channels: usize,
    pub peers: Vec<(SocketAddr, PeerLayers)>,
}

/// No two entries are for one peer.
pub open spec fn distinct<V>(s: Seq<(SocketAddr, V)>) -> bool {
    forall|i: int, j: int| 0 <= i < j < s.len() ==> (#[trigger] s[i]).0 != (#[trigger] s[j]).0
}

impl PeerLayers {
    /// The layers are in order and made with these limits, and nothing waits to be passed on.
    pub open spec fn wf(self, config: CodecConfig, max_channels: usize) -> bool {
        &&& self.dedup.window.wf()
        &&& self.defragment.wf()
        &&& self.defragment.buffer@.len() == 0
        &&& self.defragment.limit_size == config.limit_size
        &&& self.defragment.cap() == config.limit_parted
        &&& channels_wf(self.order@)
        &&& self.order@.len() == max_channels
    }
}

impl PeerCodec {
    /// Each peer has its layers once, and they are in order.
    pub open spec fn wf(self) -> bool {
        &&& 0 < self.config.limit_parted <= isize::MAX / 64
        &&& 0 < self.max_channels <= u8::MAX
        &&& distinct(self.peers@)
        &&& forall|i: int|
            0 <= i < self.peers@.len() ==> (#[trigger] self.peers@[i]).1.wf(
                self.config,
                self.max_channels,
            )
    }

    /// The numbers that arrived from a peer.
    pub open spec fn seen(self, addr: SocketAddr) -> Set<u24> {
        match lookup(self.peers@, addr) {
            Some(layers) => layers.dedup.window.received(),
            None => Set::empty(),
        }
    }

    /// The parts of a peer's messages that wait for others.
    pub open spec fn parts(self, addr: SocketAddr) -> Seq<(u16, Seq<FramePart<Seq<u8>>>)> {
        match lookup(self.peers@, addr) {
            Some(layers) => layers.defragment.collected().parts,
            None => Seq::empty(),
        }
    }

    /// The order channels of a peer.
    pub open spec fn channels(self, addr: SocketAddr) -> Seq<ChannelView<Bytes>> {
        match lookup(self.peers@, addr) {
            Some(layers) => layers.order@,
            None => Seq::new(
                self.max_channels as nat,
                |i: int| ChannelView::<Bytes> { held: Map::empty(), read: 0 },
            ),
        }
    }

    /// Of this peer, and of the limits, nothing changed.
    pub open spec fn same_for(self, before: PeerCodec, addr: SocketAddr) -> bool {
        &&& self.seen(addr) == before.seen(addr)
        &&& self.parts(addr) == before.parts(addr)
        &&& self.channels(addr) == before.channels(addr)
        &&& self.config == before.config
        &&& self.max_channels == before.max_channels
    }

    /// No peers.
    pub fn new(config: CodecConfig, max_channels: usize) -> (r: PeerCodec)
        requires
            0 < config.limit_parted <= isize::MAX / 64,
            0 < max_channels <= u8::MAX,
        ensures
            r.wf(),
            r.config == config,
            r.max_channels == max_channels,
            r.peers@.len() == 0,
    {
        PeerCodec { config, max_channels, peers: Vec::new() }
    }

    /// Where the layers of a peer stand; a new peer gets its own.
    fn slot(&mut self, addr: SocketAddr) -> (r: usize)
        requires
            old(self).wf(),
        ensures
            final(self).wf(),
            r < final(self).peers@.len(),
            final(self).peers@[r as int].0 == addr,
            forall|a: SocketAddr| #[trigger] final(self).same_for(*old(self), a),
    {
        let ghost before = self.peers@;
        let mut i: usize = 0;
        while i < self.peers.len()
            invariant
                i <= self.peers@.len(),
                old(self).wf(),
                *self == *old(self),
                before == self.peers@,
                forall|k: int| 0 <= k < i ==> (#[trigger] before[k]).0 != addr,
            decreases self.peers@.len() - i,
        {
            if self.peers[i].0 == addr {
                return i;
            }
            i = i + 1;
        }
        let layers = PeerLayers {
            dedup: Dedup::new(),
            defragment: DeFragment::new(self.config.limit_size, self.config.limit_parted),
            order: Order::new(self.max_channels),
        };
        assert(layers.defragment.collected().ready.len() == layers.defragment.buffer@.len());
        self.peers.push((addr, layers));
        proof {
            let after = self.peers@;
            lemma_lookup_absent(before, addr);
            assert forall|a: SocketAddr| #[trigger] self.same_for(*old(self), a) by {
                lemma_lookup_push(before, addr, layers, a);
            }
        }
        i
    }

    /// Drops the frames that arrived from this peer before.
    pub fn deduplicate(&mut self, frame_set: FrameSet<Vec<Frame<BytesMut>>>, addr: SocketAddr) -> (r:
        FrameSet<Vec<Frame<BytesMut>>>)
        requires
            old(self).wf(),
            numbers_wf(frames_view(frame_set.set@)),
        ensures
            final(self).wf(),
            r.seq_num == frame_set.seq_num,
            frames_view(r.set@) == fresh_frames(
                old(self).seen(addr),
                frames_view(frame_set.set@),
            ),
            final(self).seen(addr) == numbers_seen(
                old(self).seen(addr),
                frames_view(frame_set.set@),
            ),
            final(self).parts(addr) == old(self).parts(addr),
            final(self).channels(addr) == old(self).channels(addr),
            forall|a: SocketAddr| a != addr ==> #[trigger] final(self).same_for(*old(self), a),
    {
        let seq_num = frame_set.seq_num;
        let i: usize = self.slot(addr);
        let ghost mid = *self;
        assert(mid.same_for(*old(self), addr));
        proof {
            lemma_lookup_at(mid.peers@, i as int);
            assert(mid.peers@[i as int].1.wf(mid.config, mid.max_channels));
        }
        let layers = &mut self.peers[i].1;
        let r = layers.dedup.deduplicate(frame_set);
        proof {
            self.lemma_changed(mid, i as int);
            assert forall|a: SocketAddr| a != addr implies #[trigger] self.same_for(
                *old(self),
                a,
            ) by {
                assert(mid.same_for(*old(self), a));
                assert(self.same_for(mid, a));
            }
        }
        match r {
            Some(set) => set,
            None => {
                let empty = FrameSet { seq_num, set: Vec::new() };
                assert(frames_view(empty.set@) =~= Seq::empty());
                empty
            },
        }
    }

    /// Collects the parts of this peer's messages and passes on what is whole, if anything is. A
    /// part that arrives again while it waits does not count again.
    pub fn defragment(&mut self, frame_set: FrameSet<Vec<Frame<BytesMut>>>, addr: SocketAddr) -> (r:
        Result<Option<FrameSet<Vec<Frame<Bytes>>>>, CodecError>)
        requires
            old(self).wf(),
        ensures
            final(self).wf(),
            ({
                let (c, e) = collect_all_once(
                    Collected { parts: old(self).parts(addr), ready: Seq::empty() },
                    old(self).config.limit_parted as nat,
                    old(self).config.limit_size,
                    frame_set.seq_num,
                    frames_view(frame_set.set@),
                );
                &&& final(self).parts(addr) == c.parts
                &&& match e {
                    Some(e) => r matches Err(err) && err == CodecError::PartedFrame(e),
                    None => passed_on(r, frame_set.seq_num, c.ready),
                }
            }),
            final(self).seen(addr) == old(self).seen(addr),
            final(self).channels(addr) == old(self).channels(addr),
            forall|a: SocketAddr| a != addr ==> #[trigger] final(self).same_for(*old(self), a),
    {
        let i: usize = self.slot(addr);
        let ghost mid = *self;
        assert(mid.same_for(*old(self), addr));
        proof {
            lemma_lookup_at(mid.peers@, i as int);
            let layers = mid.peers@[i as int].1;
            assert(layers.wf(mid.config, mid.max_channels));
            assert(layers.defragment.collected().ready =~= Seq::empty());
        }
        let layers = &mut self.peers[i].1;
        let r = layers.defragment.defragment_set(frame_set);
        proof {
            self.lemma_changed(mid, i as int);
            assert forall|a: SocketAddr| a != addr implies #[trigger] self.same_for(
                *old(self),
                a,
            ) by {
                assert(mid.same_for(*old(self), a));
                assert(self.same_for(mid, a));
            }
        }
        r
    }

    /// Orders the frames of this peer and passes on those that are due, if any are.
    pub fn order(&mut self, frame_set: FrameSet<Vec<Frame<Bytes>>>, addr: SocketAddr) -> (r: Result<
        Option<FrameSet<Vec<Frame<Bytes>>>>,
        CodecError,
    >)
        requires
            old(self).wf(),
            forall|i: int|
                0 <= i < frame_set.set@.len() ==> ((
                #[trigger] frame_set.set@[i]).ordered matches Some(o) ==> o.frame_index.wf()),
        ensures
            final(self).wf(),
            ({
                let (channels, out, e) = ordered_all(
                    old(self).channels(addr),
                    frame_set.seq_num,
                    frame_set.set@,
                );
                &&& final(self).channels(addr) == channels
                &&& match e {
                    Some(e) => r matches Err(err) && err == CodecError::OrderedFrame(e),
                    None => if out.len() == 0 {
                        r matches Ok(None)
                    } else {
                        r matches Ok(Some(set)) && set.seq_num == frame_set.seq_num && set.set@
                            == out
                    },
                }
            }),
            final(self).seen(addr) == old(self).seen(addr),
            final(self).parts(addr) == old(self).parts(addr),
            forall|a: SocketAddr| a != addr ==> #[trigger] final(self).same_for(*old(self), a),
    {
        let i: usize = self.slot(addr);
        let ghost mid = *self;
        assert(mid.same_for(*old(self), addr));
        proof {
            lemma_lookup_at(mid.peers@, i as int);
            assert(mid.peers@[i as int].1.wf(mid.config, mid.max_channels));
            lemma_order_keeps_len(
                mid.channels(addr),
                frame_set.seq_num,
                frame_set.set@,
            );
        }
        let layers = &mut self.peers[i].1;
        let r = layers.order.order_set(frame_set);
        proof {
            self.lemma_changed(mid, i as int);
            assert forall|a: SocketAddr| a != addr implies #[trigger] self.same_for(
                *old(self),
                a,
            ) by {
                assert(mid.same_for(*old(self), a));
                assert(self.same_for(mid, a));
            }
        }
        r
    }

    /// A frame set is about to be sent to a peer. Where it tells the peer of the end of the
    /// connection, its layers are dropped.
    pub fn sending(&mut self, frame_set: &FrameSet<Vec<Frame<Bytes>>>, addr: SocketAddr) -> (r: Result<
        (),
        CodecError,
    >)
        requires
            old(self).wf(),
            frame_set.set@.len() > 0,
        ensures
            final(self).wf(),
            forall|a: SocketAddr| a != addr ==> #[trigger] final(self).same_for(*old(self), a),
            match first_type(frame_set.set@[0]@.body) {
                Ok(t) => {
                    &&& r matches Ok(())
                    &&& if t is DisconnectNotification {
                        lookup(final(self).peers@, addr) is None
                    } else {
                        *final(self) == *old(self)
                    }
                },
                Err(e) => r matches Err(err) && err == e && *final(self) == *old(self),
            },
    {
        let pack_type = match inner_pack_type(frame_set) {
            Ok(t) => t,
            Err(e) => {
                return Err(e);
            },
        };
        if let PackType::DisconnectNotification = pack_type {
            self.forget(addr);
        }
        Ok(())
    }

    /// Drops the layers of a peer.
    pub fn forget(&mut self, addr: SocketAddr)
        requires
            old(self).wf(),
        ensures
            final(self).wf(),
            lookup(final(self).peers@, addr) is None,
            forall|a: SocketAddr| a != addr ==> #[trigger] final(self).same_for(*old(self), a),
    {
        let ghost before = self.peers@;
        let mut i: usize = 0;
        while i < self.peers.len()
            invariant
                i <= self.peers@.len(),
                old(self).wf(),
                *self == *old(self),
                before == self.peers@,
                forall|k: int| 0 <= k < i ==> (#[trigger] before[k]).0 != addr,
            decreases self.peers@.len() - i,
        {
            if self.peers[i].0 == addr {
                let gone = self.peers.remove(i);
                proof {
                    let after = self.peers@;
                    let n = i as int;
                    assert forall|k: int| 0 <= k < after.len() implies (#[trigger] after[k]).1.wf(
                        self.config,
                        self.max_channels,
                    ) by {
                        if k < n {
                            assert(before[k].1.wf(self.config, self.max_channels));
                        } else {
                            assert(before[k + 1].1.wf(self.config, self.max_channels));
                        }
                    }
                    assert forall|k: int| 0 <= k < after.len() implies (#[trigger] after[k]).0
                        != addr by {
                        if k >= n {
                            assert(after[k] == before[k + 1]);
                            assert(before[n].0 != before[k + 1].0);
                        }
                    }
                    lemma_lookup_absent(after, addr);
                    assert forall|a: SocketAddr| a != addr implies #[trigger] self.same_for(
                        *old(self),
                        a,
                    ) by {
                        lemma_lookup_remove(before, n, a);
                    }
                }
                return ;
            }
            i = i + 1;
        }
        proof {
            lemma_lookup_absent(before, addr);
        }
    }

    proof fn lemma_changed(self, mid: PeerCodec, i: int)
        requires
            mid.wf(),
            0 <= i < mid.peers@.len(),
            self.config == mid.config,
            self.max_channels == mid.max_channels,
            self.peers@ == mid.peers@.update(i, (mid.peers@[i].0, self.peers@[i].1)),
            self.peers@[i].1.wf(self.config, self.max_channels),
        ensures
            self.wf(),
            lookup(self.peers@, mid.peers@[i].0) == Some(self.peers@[i].1),
            forall|a: SocketAddr|
                a != mid.peers@[i].0 ==> #[trigger] self.same_for(mid, a),
    {
        let before = mid.peers@;
        let after = self.peers@;
        assert forall|k: int| 0 <= k < after.len() implies (#[trigger] after[k]).1.wf(
            self.config,
            self.max_channels,
        ) by {
            if k != i {
                assert(before[k].1.wf(mid.config, mid.max_channels));
            }
        }
        lemma_lookup_at(after, i);
        assert forall|a: SocketAddr| a != before[i].0 implies #[trigger] self.same_for(mid, a) by {
            lemma_lookup_update(before, i, after[i].1, a);
        }
    }
}

/// The type that a body starts with.
pub open spec fn first_type(body: Seq<u8>) -> Result<PackType, CodecError> {
    if body.len() == 0 {
        Err(CodecError::InvalidPacketLength(FRAME_BODY))
    } else {
        match type_of(body[0]) {
            Some(t) => Ok(t),
            None => Err(CodecError::InvalidPacketType(body[0])),
        }
    }
}

/// The type that the first frame of a set starts with.
pub fn inner_pack_type(frame_set: &FrameSet<Vec<Frame<Bytes>>>) -> (r: Result<PackType, CodecError>)
    requires
        frame_set.set@.len() > 0,
    ensures
        r == first_type(frame_set.set@[0]@.body),
{
    let body = &frame_set.set[0].body;
    if bytes_len(body) == 0 {
        return Err(CodecError::InvalidPacketLength(FRAME_BODY));
    }
    let id: u8 = bytes_chunk(body)[0];
    let r = PackType::from_u8(id);
    proof {
        if let Ok(t) = r {
            lemma_type_of(id, t);
        }
    }
    r
}

proof fn lemma_order_keeps_len(
    channels: Seq<ChannelView<Bytes>>,
    seq_num: u24,
    fs: Seq<Frame<Bytes>>,
)
    ensures
        ordered_all(channels, seq_num, fs).0.len() == channels.len(),
    decreases fs.len(),
{
    if fs.len() > 0 {
        lemma_order_keeps_len(channels, seq_num, fs.drop_last());
    }
}

proof fn lemma_lookup_at<V>(s: Seq<(SocketAddr, V)>, i: int)
    requires
        distinct(s),
        0 <= i < s.len(),
    ensures
        lookup(s, s[i].0) == Some(s[i].1),
    decreases s.len(),
{
    if i > 0 {
        let tail = s.drop_first();
        assert(s[0].0 != s[i].0);
        assert(tail[i - 1] == s[i]);
        lemma_lookup_at(tail, i - 1);
    }
}

proof fn lemma_lookup_absent<V>(s: Seq<(SocketAddr, V)>, a: SocketAddr)
    requires
        forall|i: int| 0 <= i < s.len() ==> (#[trigger] s[i]).0 != a,
    ensures
        lookup(s, a) is None,
    decreases s.len(),
{
    if s.len() > 0 {
        let tail = s.drop_first();
        assert(s[0].0 != a);
        assert forall|i: int| 0 <= i < tail.len() implies (#[trigger] tail[i]).0 != a by {
            assert(s[i + 1].0 != a);
        }
        lemma_lookup_absent(tail, a);
    }
}

proof fn lemma_lookup_push<V>(s: Seq<(SocketAddr, V)>, k: SocketAddr, v: V, a: SocketAddr)
    ensures
        lookup(s.push((k, v)), a) == (match lookup(s, a) {
            Some(w) => Some(w),
            None => if a == k {
                Some(v)
            } else {
                None
            },
        }),
    decreases s.len(),
{
    if s.len() > 0 {
        lemma_lookup_push(s.drop_first(), k, v, a);
        assert(s.push((k, v)).drop_first() =~= s.drop_first().push((k, v)));
    } else {
        assert(s.push((k, v)).drop_first() =~= s);
    }
}

proof fn lemma_lookup_update<V>(s: Seq<(SocketAddr, V)>, i: int, v: V, a: SocketAddr)
    requires
        0 <= i < s.len(),
        a != s[i].0,
    ensures
        lookup(s.update(i, (s[i].0, v)), a) == lookup(s, a),
    decreases s.len(),
{
    let t = s.update(i, (s[i].0, v));
    if i > 0 {
        lemma_lookup_update(s.drop_first(), i - 1, v, a);
        assert(t.drop_first() =~= s.drop_first().update(i - 1, (s[i].0, v)));
    } else {
        assert(t.drop_first() =~= s.drop_first());
    }
}

proof fn lemma_lookup_remove<V>(s: Seq<(SocketAddr, V)>, i: int, a: SocketAddr)
    requires
        0 <= i < s.len(),
        a != s[i].0,
    ensures
        lookup(s.remove(i), a) == lookup(s, a),
    decreases s.len(),
{
    if i > 0 {
        lemma_lookup_remove(s.drop_first(), i - 1, a);
        assert(s.remove(i).drop_first() =~= s.drop_first().remove(i - 1));
    } else {
        assert(s.remove(0) =~= s.drop_first());
    }
}

/// What a body that starts with 0x15 says: it is the notice of the end, and no other body is.
pub proof fn lemma_end_told(body: Seq<u8>)
    ensures
        first_type(body) == Ok::<PackType, CodecError>(PackType::DisconnectNotification)
            <==> body.len() > 0 && body[0] == 0x15,
        body.len() == 0 ==> first_type(body) is Err,
{
    if body.len() > 0 {
        if body[0] == 0x15 {
            lemma_type_of(body[0], PackType::DisconnectNotification);
        } else if let Some(t) = type_of(body[0]) {
            assert(t.covers(body[0]));
        }
    }
}

/// A peer's frames that are no parts go through its defragmentation as they are: a set of such
/// frames, which is not empty, comes out with its number and exactly its frames, in their order,
/// and the parts that wait still wait.
pub proof fn lemma_plain_set_passes(
    parts: Seq<(u16, Seq<FramePart<Seq<u8>>>)>,
    cap: nat,
    limit_size: u32,
    seq_num: u24,
    fs: Seq<Frame<Seq<u8>>>,
    r: Result<Option<FrameSet<Vec<Frame<Bytes>>>>, CodecError>,
)
    requires
        fs.len() > 0,
        forall|i: int| 0 <= i < fs.len() ==> (#[trigger] fs[i]).fragment is None,
        passed_on(
            r,
            seq_num,
            collect_all_once(
                Collected { parts, ready: Seq::empty() },
                cap,
                limit_size,
                seq_num,
                fs,
            ).0.ready,
        ),
    ensures
        r matches Ok(Some(set)) && set.seq_num == seq_num && frames_view(set.set@) == fs,
        collect_all_once(
            Collected { parts, ready: Seq::empty() },
            cap,
            limit_size,
            seq_num,
            fs,
        ).0.parts == parts,
{
    let c = Collected { parts, ready: Seq::empty() };
    lemma_no_parts(c, cap, limit_size, seq_num, fs);
    let ready = collect_all_once(c, cap, limit_size, seq_num, fs).0.ready;
    assert(bare_frames(ready) =~= fs);
}

} // verus!
