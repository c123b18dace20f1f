//! The last layer of the way in: from frames to what they carry.
use bytes::Bytes;
use vstd::prelude::*;

use crate::errors::CodecError;
use crate::packet::connected::body::{parse_body, FrameBody, PlainBody};
use crate::packet::connected::frame::Frame;
use crate::packet::connected::frame_set::FrameSet;

verus! {

/// Takes the body of a frame, which is never empty, for what it is.
pub fn decode_body(frame_set: FrameSet<Frame<Bytes>>) -> (r: Result<PlainBody, CodecError>)
    requires
        frame_set.set@.body.len() > 0,
    ensures
        match parse_body(frame_set.set@.body) {
            Ok(body) => r is Ok && r->Ok_0@ == body,
            Err(e) => r == Err::<PlainBody, CodecError>(e),
        },
{
    FrameBody::read(frame_set.set.body)
}

} // verus!
