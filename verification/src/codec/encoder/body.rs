//! The first layer of the way out: from bodies of the protocol to messages.
use vstd::prelude::*;

use crate::buf::{freeze, new_buf, Contents};
use crate::message::{Message, Priority};
use crate::packet::connected::body::{body_bytes, BodyView, FrameBody, PlainBody};
use crate::packet::connected::reliability::Reliability;

verus! {

/// How a body of the protocol is delivered.
pub open spec fn body_reliability(body: BodyView) -> Reliability {
    match body {
        FrameBody::ConnectedPing { .. } => Reliability::Unreliable,
        FrameBody::ConnectedPong { .. } => Reliability::Unreliable,
        FrameBody::ConnectionRequest { .. } => Reliability::ReliableOrdered,
        FrameBody::ConnectionRequestAccepted { .. } => Reliability::Reliable,
        FrameBody::NewIncomingConnection { .. } => Reliability::ReliableOrdered,
        FrameBody::DisconnectNotification => Reliability::Reliable,
        FrameBody::DetectLostConnections => Reliability::Reliable,
        FrameBody::User(_) => Reliability::ReliableOrdered,
    }
}

/// Turns a body of the protocol into a message, on the first channel and with medium priority. A
/// user sends messages, not bodies.
pub fn encode(body: PlainBody) -> (r: Message)
    requires
        !(body is User),
    ensures
        r.reliability == body_reliability(body@),
        r.order_channel == 0,
        r.priority == Priority::Medium,
        r.data.seq() == body_bytes(body@),
{
    let reliability = match body {
        FrameBody::ConnectedPing { .. } => Reliability::Unreliable,
        FrameBody::ConnectedPong { .. } => Reliability::Unreliable,
        FrameBody::ConnectionRequest { .. } => Reliability::ReliableOrdered,
        FrameBody::ConnectionRequestAccepted { .. } => Reliability::Reliable,
        FrameBody::NewIncomingConnection { .. } => Reliability::ReliableOrdered,
        FrameBody::DisconnectNotification => Reliability::Reliable,
        FrameBody::DetectLostConnections => Reliability::Reliable,
        FrameBody::User(_) => Reliability::ReliableOrdered,
    };
    let ghost view = body@;
    let mut data = new_buf();
    body.write(&mut data);
    assert(data.seq() =~= body_bytes(view));
    Message::new(freeze(data)).reliability(reliability).order_channel(0).priority(Priority::Medium)
}

} // verus!
