//! Frame sets: the datagrams that carry frames.
use bytes::BytesMut;
use vstd::prelude::*;

use crate::buf::{remaining, Body, Contents};
use crate::errors::CodecError;
use crate::packet::address::SIZED;
use crate::packet::connected::frame::{lemma_frame_roundtrip, Frame, BODY_LIMIT};
use crate::uint24::u24;
use crate::wire::{
    is_tail, le_at, lemma_le_roundtrip, lemma_pow256_values, lemma_tail_trans,
};

verus! {

/// The place named when a frame set holds no frame.
pub const FRAME_SET: &'static str = "frame set";

/// The type of a frame set and its sequence number take this many bytes.
pub const FRAME_SET_HEADER_SIZE: usize = 4;

/// Frames that travel in one datagram, and the number of that datagram.
#[derive(Debug, Clone, PartialEq, Eq)]
pub struct FrameSet<S> {
    pub seq_num: u24,
    pub set: S,
}

/// What a run of frames holds.
pub open spec fn frames_view<B: Contents>(fs: Seq<Frame<B>>) -> Seq<Frame<Seq<u8>>> {
    Seq::new(fs.len(), |i: int| fs[i]@)
}

/// The bytes of frames written one after the other.
pub open spec fn frames_bytes(fs: Seq<Frame<Seq<u8>>>) -> Seq<u8>
    decreases fs.len(),
{
    if fs.len() == 0 {
        Seq::empty()
    } else {
        fs[0].bytes() + frames_bytes(fs.drop_first())
    }
}

/// The codec makes and reads frames like these.
pub open spec fn frames_wf(fs: Seq<Frame<Seq<u8>>>) -> bool {
    forall|i: int| 0 <= i < fs.len() ==> (#[trigger] fs[i]).wf()
}

/// Every frame can be written.
pub open spec fn frames_writable(fs: Seq<Frame<Seq<u8>>>) -> bool {
    forall|i: int| 0 <= i < fs.len() ==> (#[trigger] fs[i]).body.len() < BODY_LIMIT
}

/// The frames that make up all of `s`.
pub open spec fn parse_frames(s: Seq<u8>) -> Result<Seq<Frame<Seq<u8>>>, CodecError>
    decreases s.len(),
{
    if s.len() == 0 {
        Ok(Seq::empty())
    } else {
        match Frame::<Seq<u8>>::parse(s) {
            Err(e) => Err(e),
            Ok((f, n)) => after_frames(seq![f], parse_frames(s.skip(n))),
        }
    }
}

/// What a parse yields once the frames before are put in front.
pub open spec fn after_frames(
    fs: Seq<Frame<Seq<u8>>>,
    rest: Result<Seq<Frame<Seq<u8>>>, CodecError>,
) -> Result<Seq<Frame<Seq<u8>>>, CodecError> {
    match rest {
        Ok(more) => Ok(fs + more),
        Err(e) => Err(e),
    }
}

/// The frame set that makes up all of `s` behind its type: its number and its frames.
pub open spec fn parse_frame_set(s: Seq<u8>) -> Result<(u24, Seq<Frame<Seq<u8>>>), CodecError> {
    if s.len() < 3 {
        Err(CodecError::InvalidPacketLength(SIZED))
    } else {
        match parse_frames(s.skip(3)) {
            Err(e) => Err(e),
            Ok(fs) => {
                if fs.len() == 0 {
                    Err(CodecError::InvalidPacketLength(FRAME_SET))
                } else {
                    Ok((u24(le_at(s, 0, 3) as u32), fs))
                }
            },
        }
    }
}

/// A frame set, behind its type.
pub open spec fn frame_set_bytes(seq_num: u24, fs: Seq<Frame<Seq<u8>>>) -> Seq<u8> {
    seq_num.bytes() + frames_bytes(fs)
}

impl FrameSet<Vec<Frame<BytesMut>>> {
    /// Takes a frame set, whose type was taken before, from `buf`, which it takes up whole.
    pub(crate) fn read(buf: &mut BytesMut) -> (r: Result<Self, CodecError>)
        ensures
            match parse_frame_set(old(buf).seq()) {
                Ok((seq_num, fs)) => r is Ok && r->Ok_0.seq_num == seq_num && frames_view(
                    r->Ok_0.set@,
                ) == fs && seq_num.wf() && frames_wf(fs) && fs.len() > 0 && final(buf).seq().len()
                    == 0,
                Err(e) => r == Err::<Self, CodecError>(e),
            },
            is_tail(final(buf).seq(), old(buf).seq()),
    {
        let ghost s = buf.seq();
        if remaining(buf) < 3 {
            return Err(CodecError::InvalidPacketLength(SIZED));
        }
        let seq_num = u24::read(buf);
        let ghost body = buf.seq();
        let mut frames: Vec<Frame<BytesMut>> = Vec::new();
        proof {
            assert(frames_view(frames@) =~= Seq::empty());
            if let Ok(fs) = parse_frames(body) {
                assert(Seq::empty() + fs =~= fs);
            }
        }
        while remaining(buf) > 0
            invariant
                s == old(buf).seq(),
                s.len() >= 3,
                body == s.skip(3),
                is_tail(buf.seq(), body),
                frames_wf(frames_view(frames@)),
                parse_frames(body) == after_frames(frames_view(frames@), parse_frames(buf.seq())),
            ensures
                buf.seq().len() == 0,
            decreases buf.seq().len(),
        {
            let ghost here = buf.seq();
            let ghost done = frames@;
            let frame = match Frame::read(buf) {
                Ok(f) => f,
                Err(e) => {
                    proof {
                        lemma_tail_trans(buf.seq(), here, body);
                        lemma_tail_trans(buf.seq(), body, s);
                    }
                    return Err(e);
                },
            };
            frames.push(frame);
            proof {
                lemma_tail_trans(buf.seq(), here, body);
                assert(frames_view(frames@) =~= frames_view(done).push(frame@));
                if let Ok(more) = parse_frames(buf.seq()) {
                    assert(frames_view(done) + (seq![frame@] + more) =~= frames_view(frames@) + more);
                }
            }
        }
        proof {
            lemma_tail_trans(buf.seq(), body, s);
            assert(frames_view(frames@) + Seq::empty() =~= frames_view(frames@));
        }
        if frames.is_empty() {
            return Err(CodecError::InvalidPacketLength(FRAME_SET));
        }
        Ok(FrameSet { seq_num, set: frames })
    }
}

impl<B: Body> FrameSet<Vec<Frame<B>>> {
    /// Appends the frame set, without its type, to `buf`.
    pub(crate) fn write(self, buf: &mut BytesMut)
        requires
            frames_writable(frames_view(self.set@)),
        ensures
            final(buf).seq() == old(buf).seq() + frame_set_bytes(
                self.seq_num,
                frames_view(self.set@),
            ),
    {
        let set = FrameSet { seq_num: self.seq_num, set: self.set.as_slice() };
        set.write_ref(buf)
    }
}

impl<'a, B: Body> FrameSet<&'a [Frame<B>]> {
    /// Appends the frame set, without its type, to `buf`; the frames stay with their owner.
    pub(crate) fn write_ref(self, buf: &mut BytesMut)
        requires
            frames_writable(frames_view(self.set@)),
        ensures
            final(buf).seq() == old(buf).seq() + frame_set_bytes(
                self.seq_num,
                frames_view(self.set@),
            ),
    {
        self.seq_num.write(buf);
        let ghost head = buf.seq();
        let ghost fs = frames_view(self.set@);
        let mut i: usize = 0;
        assert(fs.take(0) =~= Seq::empty());
        assert(buf.seq() =~= head + frames_bytes(fs.take(0)));
        while i < self.set.len()
            invariant
                i <= self.set@.len(),
                fs == frames_view(self.set@),
                frames_writable(fs),
                buf.seq() == head + frames_bytes(fs.take(i as int)),
            decreases self.set@.len() - i,
        {
            assert(fs[i as int].body.len() < BODY_LIMIT);
            self.set[i].write_ref(buf);
            proof {
                lemma_frames_bytes_push(fs.take(i as int), fs[i as int]);
                assert(fs.take(i as int).push(fs[i as int]) =~= fs.take(i + 1));
                assert(buf.seq() =~= head + frames_bytes(fs.take(i + 1)));
            }
            i = i + 1;
        }
        assert(fs.take(i as int) =~= fs);
        assert(buf.seq() =~= old(buf).seq() + frame_set_bytes(self.seq_num, fs));
    }
}

pub(crate) proof fn lemma_frames_bytes_push(fs: Seq<Frame<Seq<u8>>>, f: Frame<Seq<u8>>)
    ensures
        frames_bytes(fs.push(f)) == frames_bytes(fs) + f.bytes(),
    decreases fs.len(),
{
    if fs.len() == 0 {
        assert(fs.push(f).drop_first() =~= fs);
        assert(frames_bytes(fs.push(f)) =~= frames_bytes(fs) + f.bytes());
    } else {
        lemma_frames_bytes_push(fs.drop_first(), f);
        assert(fs.push(f).drop_first() =~= fs.drop_first().push(f));
        assert(frames_bytes(fs.push(f)) =~= frames_bytes(fs) + f.bytes());
    }
}

proof fn lemma_frames_roundtrip(fs: Seq<Frame<Seq<u8>>>)
    requires
        frames_wf(fs),
    ensures
        parse_frames(frames_bytes(fs)) == Ok::<Seq<Frame<Seq<u8>>>, CodecError>(fs),
    decreases fs.len(),
{
    if fs.len() > 0 {
        let tail = fs.drop_first();
        assert(fs[0].wf());
        assert forall|i: int| 0 <= i < tail.len() implies (#[trigger] tail[i]).wf() by {
            assert(fs[i + 1].wf());
        }
        lemma_frames_roundtrip(tail);
        lemma_frame_roundtrip(fs[0], frames_bytes(tail));
        assert(seq![fs[0]] + tail =~= fs);
    } else {
        assert(fs =~= Seq::empty());
    }
}

/// A frame set that was written is read back as it was.
pub proof fn lemma_frame_set_roundtrip(seq_num: u24, fs: Seq<Frame<Seq<u8>>>)
    requires
        seq_num.wf(),
        frames_wf(fs),
        fs.len() > 0,
    ensures
        parse_frame_set(frame_set_bytes(seq_num, fs)) == Ok::<
            (u24, Seq<Frame<Seq<u8>>>),
            CodecError,
        >((seq_num, fs)),
{
    let s = frame_set_bytes(seq_num, fs);
    lemma_le_roundtrip(seq_num.0 as nat, 3);
    lemma_pow256_values();
    assert(s.subrange(0, 3) =~= seq_num.bytes());
    assert(s.skip(3) =~= frames_bytes(fs));
    lemma_frames_roundtrip(fs);
}

} // verus!
