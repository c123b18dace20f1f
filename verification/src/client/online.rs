//! The second part of a client's handshake, and what the protocol asks of a client afterwards.
use bytes::Bytes;
use vstd::prelude::*;

use crate::handover::Handover;
use crate::link::{LinkView, TransferLink};
use crate::packet::address::SocketAddr;
use crate::packet::connected::body::{FrameBody, PlainBody};

verus! {

/// Where the connection stands.
#[derive(Debug, Clone, Copy, PartialEq, Eq, Structural)]
pub enum State {
    WaitConnRes,
    Connected,
}

/// The client's side of the established connection.
#[derive(Debug, Clone, Copy)]
pub struct OnlineHandler {
    pub state: State,
    /// The server.
    pub addr: SocketAddr,
}

/// What a client asks the server for a connection with.
pub open spec fn request(client_guid: u64, timestamp: i64) -> PlainBody {
    FrameBody::ConnectionRequest {
        client_guid,
        request_timestamp: timestamp,
        use_encryption: false,
    }
}

/// What comes of a body that arrived at `timestamp`: where the connection stands then, what is
/// sent to the server, and what is passed on to the user.
pub open spec fn handled(h: OnlineHandler, body: PlainBody, timestamp: i64) -> (
    OnlineHandler,
    Option<PlainBody>,
    Option<Bytes>,
) {
    match h.state {
        State::WaitConnRes => match body {
            FrameBody::ConnectionRequestAccepted {
                client_address,
                system_index,
                system_addresses,
                request_timestamp,
                accepted_timestamp,
            } => (
                OnlineHandler { state: State::Connected, ..h },
                Some(
                    FrameBody::NewIncomingConnection {
                        server_address: h.addr,
                        system_addresses,
                        request_timestamp: timestamp,
                        accepted_timestamp,
                    },
                ),
                None,
            ),
            _ => (h, None, None),
        },
        State::Connected => match body {
            FrameBody::DetectLostConnections => (
                h,
                Some(FrameBody::ConnectedPing { client_timestamp: timestamp }),
                None,
            ),
            FrameBody::User(data) => (h, None, Some(data)),
            _ => (h, None, None),
        },
    }
}

/// The link once a body was handed over to be sent, where there is one.
pub open spec fn with_reply(link: LinkView, reply: Option<PlainBody>) -> LinkView {
    match reply {
        Some(body) => LinkView { frame_body: link.frame_body.push(Handover::Body(body)), ..link },
        None => link,
    }
}

/// The handler after bodies, each with the time it arrived at.
pub open spec fn after_bodies(h: OnlineHandler, run: Seq<(PlainBody, i64)>) -> OnlineHandler
    decreases run.len(),
{
    if run.len() == 0 {
        h
    } else {
        let (body, timestamp) = run.last();
        handled(after_bodies(h, run.drop_last()), body, timestamp).0
    }
}

impl OnlineHandler {
    /// Asks the server for a connection.
    pub fn new(addr: SocketAddr, client_guid: u64, link: &mut TransferLink, timestamp: i64) -> (r:
        OnlineHandler)
        requires
            old(link).wf(),
        ensures
            final(link).wf(),
            r == (OnlineHandler { state: State::WaitConnRes, addr }),
            final(link)@ == with_reply(old(link)@, Some(request(client_guid, timestamp))),
            final(link)@ == (LinkView {
                frame_body: old(link)@.frame_body.push(
                    Handover::Body(
                        FrameBody::ConnectionRequest {
                            client_guid,
                            request_timestamp: timestamp,
                            use_encryption: false,
                        },
                    ),
                ),
                ..old(link)@
            }),
    {
        link.send_frame_body(
            FrameBody::ConnectionRequest {
                client_guid,
                request_timestamp: timestamp,
                use_encryption: false,
            },
        );
        OnlineHandler { state: State::WaitConnRes, addr }
    }

    /// A body arrived at `timestamp`. The acceptance of the connection is confirmed, a check for
    /// lost connections is answered, a user's message is passed on once the connection is there,
    /// and all else is ignored.
    pub fn handle(&mut self, body: PlainBody, link: &mut TransferLink, timestamp: i64) -> (r: Option<
        Bytes,
    >)
        requires
            old(link).wf(),
        ensures
            final(link).wf(),
            final(self).addr == old(self).addr,
            *final(self) == handled(*old(self), body, timestamp).0,
            final(link)@ == with_reply(old(link)@, handled(*old(self), body, timestamp).1),
            r == handled(*old(self), body, timestamp).2,
            match (old(self).state, body) {
                (
                    State::WaitConnRes,
                    FrameBody::ConnectionRequestAccepted {
                        client_address,
                        system_index,
                        system_addresses,
                        request_timestamp,
                        accepted_timestamp,
                    },
                ) => {
                    &&& r is None
                    &&& final(self).state == State::Connected
                    &&& final(link)@ == (LinkView {
                        frame_body: old(link)@.frame_body.push(
                            Handover::Body(
                                FrameBody::NewIncomingConnection {
                                    server_address: old(self).addr,
                                    system_addresses,
                                    request_timestamp: timestamp,
                                    accepted_timestamp,
                                },
                            ),
                        ),
                        ..old(link)@
                    })
                },
                (State::Connected, FrameBody::DetectLostConnections) => {
                    &&& r is None
                    &&& final(self).state == State::Connected
                    &&& final(link)@ == (LinkView {
                        frame_body: old(link)@.frame_body.push(
                            Handover::Body(
                                FrameBody::ConnectedPing { client_timestamp: timestamp },
                            ),
                        ),
                        ..old(link)@
                    })
                },
                (State::Connected, FrameBody::User(data)) => {
                    &&& r == Some(data)
                    &&& final(self).state == State::Connected
                    &&& final(link)@ == old(link)@
                },
                _ => r is None && final(self).state == old(self).state && final(link)@ == old(
                    link,
                )@,
            },
    {
        match self.state {
            State::WaitConnRes => {
                if let FrameBody::ConnectionRequestAccepted {
                    system_addresses,
                    accepted_timestamp,
                    ..
                } = body {
                    link.send_frame_body(
                        FrameBody::NewIncomingConnection {
                            server_address: self.addr,
                            system_addresses,
                            request_timestamp: timestamp,
                            accepted_timestamp,
                        },
                    );
                    self.state = State::Connected;
                }
                None
            },
            State::Connected => match body {
                FrameBody::DetectLostConnections => {
                    link.send_frame_body(
                        FrameBody::ConnectedPing { client_timestamp: timestamp },
                    );
                    None
                },
                FrameBody::User(data) => Some(data),
                _ => None,
            },
        }
    }
}

/// A client asks for a connection without encryption, with its own id and its own time.
pub proof fn lemma_request(client_guid: u64, timestamp: i64)
    ensures
        request(client_guid, timestamp) matches FrameBody::ConnectionRequest {
            client_guid: guid,
            request_timestamp,
            use_encryption,
        } && guid == client_guid && request_timestamp == timestamp && !use_encryption,
{
}

/// A client is connected just from the first acceptance on.
pub proof fn lemma_connected_from(h: OnlineHandler, run: Seq<(PlainBody, i64)>)
    requires
        h.state is WaitConnRes,
    ensures
        after_bodies(h, run).addr == h.addr,
        after_bodies(h, run).state is Connected <==> exists|j: int|
            0 <= j < run.len() && (#[trigger] run[j]).0 is ConnectionRequestAccepted,
    decreases run.len(),
{
    if run.len() > 0 {
        let init = run.drop_last();
        lemma_connected_from(h, init);
        let last = run.len() - 1;
        if after_bodies(h, init).state is Connected {
            let j = choose|j: int|
                0 <= j < init.len() && (#[trigger] init[j]).0 is ConnectionRequestAccepted;
            assert(run[j].0 is ConnectionRequestAccepted);
        } else {
            if exists|j: int|
                0 <= j < run.len() && (#[trigger] run[j]).0 is ConnectionRequestAccepted {
                let j = choose|j: int|
                    0 <= j < run.len() && (#[trigger] run[j]).0 is ConnectionRequestAccepted;
                if j < last {
                    assert(init[j].0 is ConnectionRequestAccepted);
                }
            }
            if run.last().0 is ConnectionRequestAccepted {
                assert(run[last].0 is ConnectionRequestAccepted);
            }
        }
    }
}

/// What a client does in the course of a connection, whatever arrives. The first acceptance, and no
/// other, is confirmed: with the server's address, the addresses and the time of the acceptance as
/// they came, and the time the client saw it. From then on each question whether the client is
/// there is answered by a ping with the client's time, and each message of the server's user is
/// passed on as it is. Nothing else is sent, and nothing else is passed on.
pub proof fn lemma_course(h: OnlineHandler, run: Seq<(PlainBody, i64)>, i: int)
    requires
        h.state is WaitConnRes,
        0 <= i < run.len(),
    ensures
        ({
            let (body, timestamp) = run[i];
            let (_, reply, passed) = handled(after_bodies(h, run.take(i)), body, timestamp);
            let accepted = exists|j: int|
                0 <= j < i && (#[trigger] run[j]).0 is ConnectionRequestAccepted;
            &&& !accepted ==> {
                &&& passed is None
                &&& !(body is ConnectionRequestAccepted) ==> reply is None
                &&& body matches FrameBody::ConnectionRequestAccepted {
                    client_address,
                    system_index,
                    system_addresses,
                    request_timestamp,
                    accepted_timestamp,
                } ==> reply == Some(
                    FrameBody::<Bytes, [SocketAddr; 20]>::NewIncomingConnection {
                        server_address: h.addr,
                        system_addresses,
                        request_timestamp: timestamp,
                        accepted_timestamp,
                    },
                )
            }
            &&& accepted ==> {
                &&& body is DetectLostConnections ==> reply == Some(
                    FrameBody::<Bytes, [SocketAddr; 20]>::ConnectedPing {
                        client_timestamp: timestamp,
                    },
                )
                &&& !(body is DetectLostConnections) ==> reply is None
                &&& body matches FrameBody::User(data) ==> passed == Some(data)
                &&& !(body is User) ==> passed is None
            }
        }),
{
    let before = run.take(i);
    lemma_connected_from(h, before);
    if exists|j: int| 0 <= j < i && (#[trigger] run[j]).0 is ConnectionRequestAccepted {
        let j = choose|j: int| 0 <= j < i && (#[trigger] run[j]).0 is ConnectionRequestAccepted;
        assert(before[j].0 is ConnectionRequestAccepted);
    }
    if after_bodies(h, before).state is Connected {
        let j = choose|j: int|
            0 <= j < before.len() && (#[trigger] before[j]).0 is ConnectionRequestAccepted;
        assert(run[j].0 is ConnectionRequestAccepted);
    }
}

} // verus!
