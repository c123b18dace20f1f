//! The first part of a client's handshake, before the connection is established.
use bytes::{Bytes, BytesMut};
use vstd::prelude::*;

use crate::packet::address::SocketAddr;
use crate::packet::connected::frame::Frame;
use crate::packet::connected::packet as connected;
use crate::packet::datagram::Packet;
use crate::packet::unconnected;
use crate::peer::{Peer, Role};

verus! {

/// Settings of the handshake.
#[derive(Debug, Clone, Copy, PartialEq, Eq, Structural)]
pub struct Config {
    pub mtu: u16,
    pub client_guid: u64,
    pub protocol_version: u8,
}

/// Where the handshake stands.
#[derive(Debug)]
pub enum State {
    SendOpenConnReq1(unconnected::Packet<Bytes>),
    SendOpenConnReq1Flush,
    WaitOpenConnReply1,
    SendOpenConnReq2(unconnected::Packet<Bytes>),
    SendOpenConnReq2Flush,
    WaitOpenConnReply2,
    /// The server agreed.
    Finished(Peer),
}

/// What is to be done next.
#[derive(Debug, Clone, Copy, PartialEq, Eq, Structural)]
pub enum Task {
    /// Take the packet with `next_packet` and send it to the server.
    Send,
    /// Flush what was sent, and tell `flushed`.
    Flush,
    /// Receive a packet, and hand it to `received`.
    Receive,
    /// Nothing: the connection to this server is open.
    Finished(Peer),
}

/// The client's side of the handshake.
#[derive(Debug)]
pub struct OfflineHandler {
    pub state: State,
    pub server_addr: SocketAddr,
    pub config: Config,
    pub role: Role,
}

/// The packet that is to be sent next, where there is one.
pub open spec fn packet_due(state: State) -> Option<unconnected::Packet<Bytes>> {
    match state {
        State::SendOpenConnReq1(packet) => Some(packet),
        State::SendOpenConnReq2(packet) => Some(packet),
        _ => None,
    }
}

/// Where the handshake stands once its packet was taken to be sent.
pub open spec fn state_sent(state: State) -> State {
    match state {
        State::SendOpenConnReq1(_) => State::SendOpenConnReq1Flush,
        State::SendOpenConnReq2(_) => State::SendOpenConnReq2Flush,
        _ => state,
    }
}

/// Where the handshake stands once what was sent is flushed.
pub open spec fn state_flushed(state: State) -> State {
    match state {
        State::SendOpenConnReq1Flush => State::WaitOpenConnReply1,
        State::SendOpenConnReq2Flush => State::WaitOpenConnReply2,
        _ => state,
    }
}

/// Where the handshake stands once `packet` came from `addr`. What comes from elsewhere, and what
/// is not the reply that is awaited, is ignored.
pub open spec fn state_after(
    h: OfflineHandler,
    packet: Packet<Vec<Frame<BytesMut>>>,
    addr: SocketAddr,
) -> State {
    if addr != h.server_addr {
        h.state
    } else {
        match (h.state, packet) {
            (
                State::WaitOpenConnReply1,
                Packet::Unconnected(
                    unconnected::Packet::OpenConnectionReply1 { server_guid, use_encryption, mtu },
                ),
            ) => State::SendOpenConnReq2(
                unconnected::Packet::OpenConnectionRequest2 {
                    server_address: h.server_addr,
                    mtu,
                    client_guid: h.config.client_guid,
                },
            ),
            (
                State::WaitOpenConnReply2,
                Packet::Unconnected(
                    unconnected::Packet::OpenConnectionReply2 {
                        server_guid,
                        client_address,
                        mtu,
                        encryption_enabled,
                    },
                ),
            ) => State::Finished(Peer { guid: server_guid, addr: h.server_addr, mtu }),
            _ => h.state,
        }
    }
}

/// What is to be done next in a state.
pub open spec fn task_of(state: State) -> Task {
    match state {
        State::SendOpenConnReq1(_) => Task::Send,
        State::SendOpenConnReq1Flush => Task::Flush,
        State::WaitOpenConnReply1 => Task::Receive,
        State::SendOpenConnReq2(_) => Task::Send,
        State::SendOpenConnReq2Flush => Task::Flush,
        State::WaitOpenConnReply2 => Task::Receive,
        State::Finished(peer) => Task::Finished(peer),
    }
}

/// What is passed on of a packet that came from `addr` once the connection to `server_addr` is
/// there.
pub open spec fn connected_only(
    server_addr: SocketAddr,
    packet: Packet<Vec<Frame<BytesMut>>>,
    addr: SocketAddr,
) -> Option<connected::Packet<Vec<Frame<BytesMut>>>> {
    match packet {
        Packet::Connected(p) => if addr == server_addr {
            Some(p)
        } else {
            None
        },
        Packet::Unconnected(_) => None,
    }
}

impl OfflineHandler {
    /// A handshake with the server at this address.
    pub fn new(server_addr: SocketAddr, config: Config) -> (r: OfflineHandler)
        ensures
            r.state == State::SendOpenConnReq1(first_request(config)),
            r == (OfflineHandler {
                state: State::SendOpenConnReq1(
                    unconnected::Packet::OpenConnectionRequest1 {
                        protocol_version: config.protocol_version,
                        mtu: config.mtu,
                    },
                ),
                server_addr,
                config,
                role: Role::Client { guid: config.client_guid },
            }),
    {
        OfflineHandler {
            state: State::SendOpenConnReq1(
                unconnected::Packet::OpenConnectionRequest1 {
                    protocol_version: config.protocol_version,
                    mtu: config.mtu,
                },
            ),
            server_addr,
            config,
            role: Role::Client { guid: config.client_guid },
        }
    }

    /// What is to be done next.
    pub fn task(&self) -> (r: Task)
        ensures
            r == task_of(self.state),
            r == (match self.state {
                State::SendOpenConnReq1(_) => Task::Send,
                State::SendOpenConnReq1Flush => Task::Flush,
                State::WaitOpenConnReply1 => Task::Receive,
                State::SendOpenConnReq2(_) => Task::Send,
                State::SendOpenConnReq2Flush => Task::Flush,
                State::WaitOpenConnReply2 => Task::Receive,
                State::Finished(peer) => Task::Finished(peer),
            }),
    {
        match &self.state {
            State::SendOpenConnReq1(_) => Task::Send,
            State::SendOpenConnReq1Flush => Task::Flush,
            State::WaitOpenConnReply1 => Task::Receive,
            State::SendOpenConnReq2(_) => Task::Send,
            State::SendOpenConnReq2Flush => Task::Flush,
            State::WaitOpenConnReply2 => Task::Receive,
            State::Finished(peer) => Task::Finished(*peer),
        }
    }

    /// The packet that is to be sent to the server, where there is one. It must be flushed next.
    pub fn next_packet(&mut self) -> (r: Option<unconnected::Packet<Bytes>>)
        ensures
            r == packet_due(old(self).state),
            *final(self) == (OfflineHandler { state: state_sent(old(self).state), ..*old(self) }),
    {
        let next = match &self.state {
            State::SendOpenConnReq1(_) => State::SendOpenConnReq1Flush,
            State::SendOpenConnReq2(_) => State::SendOpenConnReq2Flush,
            _ => {
                return None;
            },
        };
        let mut state = next;
        std::mem::swap(&mut self.state, &mut state);
        match state {
            State::SendOpenConnReq1(packet) => Some(packet),
            State::SendOpenConnReq2(packet) => Some(packet),
            _ => None,
        }
    }

    /// What was sent is flushed: the reply is awaited next.
    pub fn flushed(&mut self)
        ensures
            *final(self) == (OfflineHandler {
                state: state_flushed(old(self).state),
                ..*old(self)
            }),
    {
        match &self.state {
            State::SendOpenConnReq1Flush => {
                self.state = State::WaitOpenConnReply1;
            },
            State::SendOpenConnReq2Flush => {
                self.state = State::WaitOpenConnReply2;
            },
            _ => {},
        }
    }

    /// A packet came from `addr`.
    pub fn received(&mut self, packet: Packet<Vec<Frame<BytesMut>>>, addr: SocketAddr)
        ensures
            *final(self) == (OfflineHandler {
                state: state_after(*old(self), packet, addr),
                ..*old(self)
            }),
    {
        if addr != self.server_addr {
            return ;
        }
        match (&self.state, packet) {
            (
                State::WaitOpenConnReply1,
                Packet::Unconnected(unconnected::Packet::OpenConnectionReply1 { mtu, .. }),
            ) => {
                self.state =
                State::SendOpenConnReq2(
                    unconnected::Packet::OpenConnectionRequest2 {
                        server_address: self.server_addr,
                        mtu,
                        client_guid: self.config.client_guid,
                    },
                );
            },
            (
                State::WaitOpenConnReply2,
                Packet::Unconnected(
                    unconnected::Packet::OpenConnectionReply2 { server_guid, mtu, .. },
                ),
            ) => {
                self.state = State::Finished(Peer { guid: server_guid, addr: self.server_addr, mtu });
            },
            _ => {},
        }
    }
}

/// Passes on the packets of the established connection to `server_addr`, and nothing else.
pub fn filter_connected(
    server_addr: SocketAddr,
    packet: Packet<Vec<Frame<BytesMut>>>,
    addr: SocketAddr,
) -> (r: Option<connected::Packet<Vec<Frame<BytesMut>>>>)
    ensures
        r == connected_only(server_addr, packet, addr),
        r == (match packet {
            Packet::Connected(p) => if addr == server_addr {
                Some(p)
            } else {
                None
            },
            _ => None,
        }),
{
    if addr != server_addr {
        return None;
    }
    match packet {
        Packet::Connected(p) => Some(p),
        _ => None,
    }
}

/// The handshake comes to its end: once the first request is flushed and answered, the second
/// asks for the mtu of that answer, and once that is flushed and answered too, the connection is
/// open to the server that was asked, with the mtu of the last answer.
pub proof fn lemma_handshake(
    start: OfflineHandler,
    reply1: Packet<Vec<Frame<BytesMut>>>,
    reply2: Packet<Vec<Frame<BytesMut>>>,
    first_mtu: u16,
    peer: Peer,
)
    requires
        start.state is SendOpenConnReq1,
        reply1 matches Packet::Unconnected(
            unconnected::Packet::OpenConnectionReply1 { server_guid, use_encryption, mtu },
        ) && mtu == first_mtu,
        reply2 matches Packet::Unconnected(
            unconnected::Packet::OpenConnectionReply2 {
                server_guid,
                client_address,
                mtu,
                encryption_enabled,
            },
        ) && peer == (Peer { guid: server_guid, addr: start.server_addr, mtu }),
    ensures
        ({
            let addr = start.server_addr;
            let waiting1 = state_flushed(state_sent(start.state));
            let asking2 = state_after(OfflineHandler { state: waiting1, ..start }, reply1, addr);
            let waiting2 = state_flushed(state_sent(asking2));
            &&& asking2 == State::SendOpenConnReq2(
                unconnected::Packet::OpenConnectionRequest2 {
                    server_address: addr,
                    mtu: first_mtu,
                    client_guid: start.config.client_guid,
                },
            )
            &&& state_after(OfflineHandler { state: waiting2, ..start }, reply2, addr)
                == State::Finished(peer)
        }),
{
}

/// What is done with the handler.
pub ghost enum Deed {
    /// The next packet is taken to be sent.
    Take,
    /// What was sent is flushed.
    Flush,
    /// A packet came from `addr`.
    Receive { packet: Packet<Vec<Frame<BytesMut>>>, addr: SocketAddr },
}

/// The handler after a deed.
pub open spec fn after_deed(h: OfflineHandler, deed: Deed) -> OfflineHandler {
    let state = match deed {
        Deed::Take => state_sent(h.state),
        Deed::Flush => state_flushed(h.state),
        Deed::Receive { packet, addr } => state_after(h, packet, addr),
    };
    OfflineHandler { state, ..h }
}

/// The handler after deeds, one after the other.
pub open spec fn after_deeds(start: OfflineHandler, deeds: Seq<Deed>) -> OfflineHandler
    decreases deeds.len(),
{
    if deeds.len() == 0 {
        start
    } else {
        after_deed(after_deeds(start, deeds.drop_last()), deeds.last())
    }
}

/// The packets that the handler gave to be sent, in order.
pub open spec fn packets_taken(start: OfflineHandler, deeds: Seq<Deed>) -> Seq<
    unconnected::Packet<Bytes>,
>
    decreases deeds.len(),
{
    if deeds.len() == 0 {
        Seq::empty()
    } else {
        let before = packets_taken(start, deeds.drop_last());
        match (deeds.last(), packet_due(after_deeds(start, deeds.drop_last()).state)) {
            (Deed::Take, Some(packet)) => before.push(packet),
            _ => before,
        }
    }
}

/// The first request.
pub open spec fn first_request(config: Config) -> unconnected::Packet<Bytes> {
    unconnected::Packet::OpenConnectionRequest1 {
        protocol_version: config.protocol_version,
        mtu: config.mtu,
    }
}

/// The second request, which asks for `mtu`.
pub open spec fn second_request(
    server_addr: SocketAddr,
    config: Config,
    mtu: u16,
) -> unconnected::Packet<Bytes> {
    unconnected::Packet::OpenConnectionRequest2 {
        server_address: server_addr,
        mtu,
        client_guid: config.client_guid,
    }
}

/// The first reply, with `mtu`, comes from the server.
pub open spec fn first_reply(deed: Deed, server_addr: SocketAddr, mtu: u16) -> bool {
    deed matches Deed::Receive { packet, addr } && addr == server_addr && (
    packet matches Packet::Unconnected(
        unconnected::Packet::OpenConnectionReply1 { server_guid, use_encryption, mtu: m },
    ) && m == mtu)
}

/// The second reply comes from the server, which is then `peer`.
pub open spec fn second_reply(deed: Deed, server_addr: SocketAddr, peer: Peer) -> bool {
    deed matches Deed::Receive { packet, addr } && addr == server_addr && (
    packet matches Packet::Unconnected(
        unconnected::Packet::OpenConnectionReply2 {
            server_guid,
            client_address,
            mtu,
            encryption_enabled,
        },
    ) && peer == (Peer { guid: server_guid, addr: server_addr, mtu }))
}

/// At the deed `i` the first reply, with `mtu`, comes from the server, after the first request was
/// given to be sent and nothing else was.
pub open spec fn answered_first(
    start: OfflineHandler,
    deeds: Seq<Deed>,
    i: int,
    mtu: u16,
) -> bool {
    &&& 0 <= i < deeds.len()
    &&& first_reply(deeds[i], start.server_addr, mtu)
    &&& packets_taken(start, deeds.take(i)) == seq![first_request(start.config)]
}

/// At the deed `j` the second reply comes from the server, which is then `peer`, after both
/// requests were given to be sent, the second one with `mtu`, and nothing else was.
pub open spec fn answered_second(
    start: OfflineHandler,
    deeds: Seq<Deed>,
    j: int,
    mtu: u16,
    peer: Peer,
) -> bool {
    &&& 0 <= j < deeds.len()
    &&& second_reply(deeds[j], start.server_addr, peer)
    &&& packets_taken(start, deeds.take(j)) == seq![
        first_request(start.config),
        second_request(start.server_addr, start.config, mtu),
    ]
}

/// Where a handshake stands, and what must have happened before.
spec fn progress(start: OfflineHandler, deeds: Seq<Deed>) -> bool {
    let h = after_deeds(start, deeds);
    let out = packets_taken(start, deeds);
    let one = seq![first_request(start.config)];
    &&& h == (OfflineHandler { state: h.state, ..start })
    &&& match h.state {
        State::SendOpenConnReq1(packet) => out == Seq::<unconnected::Packet<Bytes>>::empty()
            && packet == first_request(start.config),
        State::SendOpenConnReq1Flush => out == one,
        State::WaitOpenConnReply1 => out == one,
        State::SendOpenConnReq2(packet) => {
            &&& out == one
            &&& exists|i: int, mtu: u16| #[trigger]
                answered_first(start, deeds, i, mtu) && packet == second_request(
                    start.server_addr,
                    start.config,
                    mtu,
                )
        },
        State::SendOpenConnReq2Flush => second_taken(start, deeds),
        State::WaitOpenConnReply2 => second_taken(start, deeds),
        State::Finished(peer) => exists|i: int, j: int, mtu: u16| #[trigger]
            completed(start, deeds, i, j, mtu, peer),
    }
}

/// Both requests were given to be sent, the second one with the mtu of a first reply.
spec fn second_taken(start: OfflineHandler, deeds: Seq<Deed>) -> bool {
    exists|i: int, mtu: u16| #[trigger]
        answered_first(start, deeds, i, mtu) && packets_taken(start, deeds) == seq![
            first_request(start.config),
            second_request(start.server_addr, start.config, mtu),
        ]
}

/// The handshake is complete: exactly the two requests were given to be sent, the first one first.
/// The server answered the first one at the deed `i`, before the second one was given, and the
/// second one, which asks for the mtu of that answer, at the deed `j`.
pub open spec fn completed(
    start: OfflineHandler,
    deeds: Seq<Deed>,
    i: int,
    j: int,
    mtu: u16,
    peer: Peer,
) -> bool {
    &&& i < j
    &&& answered_first(start, deeds, i, mtu)
    &&& answered_second(start, deeds, j, mtu, peer)
    &&& packets_taken(start, deeds) == seq![
        first_request(start.config),
        second_request(start.server_addr, start.config, mtu),
    ]
}

proof fn lemma_answered_on(start: OfflineHandler, deeds: Seq<Deed>, i: int, mtu: u16)
    requires
        deeds.len() > 0,
        answered_first(start, deeds.drop_last(), i, mtu),
    ensures
        answered_first(start, deeds, i, mtu),
{
    assert(deeds.drop_last().take(i) =~= deeds.take(i));
}

proof fn lemma_progress(start: OfflineHandler, deeds: Seq<Deed>)
    requires
        start.state == State::SendOpenConnReq1(first_request(start.config)),
    ensures
        progress(start, deeds),
    decreases deeds.len(),
{
    if deeds.len() > 0 {
        let init = deeds.drop_last();
        let deed = deeds.last();
        let h = after_deeds(start, init);
        let last = deeds.len() - 1;
        lemma_progress(start, init);
        assert(deeds.take(last) =~= init);
        match h.state {
            State::SendOpenConnReq1(packet) => {
                if deed is Take {
                    assert(packets_taken(start, deeds) =~= seq![packet]);
                }
            },
            State::SendOpenConnReq1Flush => {},
            State::WaitOpenConnReply1 => {
                if after_deeds(start, deeds).state is SendOpenConnReq2 {
                    let mtu = deed->packet->Unconnected_0->OpenConnectionReply1_mtu;
                    assert(answered_first(start, deeds, last, mtu));
                }
            },
            State::SendOpenConnReq2(packet) => {
                let (i, mtu) = choose|i: int, mtu: u16| #[trigger]
                    answered_first(start, init, i, mtu) && packet == second_request(
                        start.server_addr,
                        start.config,
                        mtu,
                    );
                lemma_answered_on(start, deeds, i, mtu);
                if deed is Take {
                    assert(packets_taken(start, deeds) =~= seq![
                        first_request(start.config),
                        packet,
                    ]);
                }
            },
            State::SendOpenConnReq2Flush => {
                let (i, mtu) = lemma_second_taken(start, deeds);
            },
            State::WaitOpenConnReply2 => {
                let (i, mtu) = lemma_second_taken(start, deeds);
                if let State::Finished(peer) = after_deeds(start, deeds).state {
                    assert(answered_second(start, deeds, last, mtu, peer));
                    assert(completed(start, deeds, i, last, mtu, peer));
                }
            },
            State::Finished(peer) => {
                let (i, j, mtu) = choose|i: int, j: int, mtu: u16| #[trigger]
                    completed(start, init, i, j, mtu, peer);
                lemma_answered_on(start, deeds, i, mtu);
                assert(init.take(j) =~= deeds.take(j));
                assert(completed(start, deeds, i, j, mtu, peer));
            },
        }
    }
}

proof fn lemma_second_taken(start: OfflineHandler, deeds: Seq<Deed>) -> (r: (int, u16))
    requires
        deeds.len() > 0,
        second_taken(start, deeds.drop_last()),
        packets_taken(start, deeds) == packets_taken(start, deeds.drop_last()),
    ensures
        answered_first(start, deeds, r.0, r.1),
        r.0 < deeds.len() - 1,
        packets_taken(start, deeds) == seq![
            first_request(start.config),
            second_request(start.server_addr, start.config, r.1),
        ],
        second_taken(start, deeds),
{
    let init = deeds.drop_last();
    let (i, mtu) = choose|i: int, mtu: u16| #[trigger]
        answered_first(start, init, i, mtu) && packets_taken(start, init) == seq![
            first_request(start.config),
            second_request(start.server_addr, start.config, mtu),
        ];
    lemma_answered_on(start, deeds, i, mtu);
    (i, mtu)
}

/// A handshake that is finished went as it must, whatever was done with the handler in whatever
/// order, and whatever came from where: exactly the first request and then the second one were
/// given to be sent; the server answered the first one before the second one was given, which asks
/// for the mtu of that answer; and then it answered the second one, which made it the peer.
pub proof fn lemma_finished(start: OfflineHandler, deeds: Seq<Deed>, peer: Peer)
    requires
        start.state == State::SendOpenConnReq1(first_request(start.config)),
        after_deeds(start, deeds).state == State::Finished(peer),
    ensures
        exists|i: int, j: int, mtu: u16| #[trigger] completed(start, deeds, i, j, mtu, peer),
{
    lemma_progress(start, deeds);
}

/// What a handshake that is finished has sent, and whom it made the peer: the first request names
/// the protocol version and the mtu of the settings; the second one names the server, the mtu that
/// the server named in its first reply, and the client's id; and the peer has the id and the mtu
/// of the server's second reply, and its address.
pub proof fn lemma_finished_with(start: OfflineHandler, deeds: Seq<Deed>, peer: Peer)
    requires
        start.state == State::SendOpenConnReq1(first_request(start.config)),
        after_deeds(start, deeds).state == State::Finished(peer),
    ensures
        exists|i: int, j: int|
            {
                &&& 0 <= i < j < deeds.len()
                &&& #[trigger] deeds[i] matches Deed::Receive {
                    packet: Packet::Unconnected(
                        unconnected::Packet::OpenConnectionReply1 { server_guid, use_encryption, mtu },
                    ),
                    addr,
                } && addr == start.server_addr && packets_taken(start, deeds) == seq![
                    unconnected::Packet::<Bytes>::OpenConnectionRequest1 {
                        protocol_version: start.config.protocol_version,
                        mtu: start.config.mtu,
                    },
                    unconnected::Packet::OpenConnectionRequest2 {
                        server_address: start.server_addr,
                        mtu,
                        client_guid: start.config.client_guid,
                    },
                ]
                &&& #[trigger] deeds[j] matches Deed::Receive {
                    packet: Packet::Unconnected(
                        unconnected::Packet::OpenConnectionReply2 {
                            server_guid,
                            client_address,
                            mtu,
                            encryption_enabled,
                        },
                    ),
                    addr,
                } && addr == start.server_addr && peer.guid == server_guid && peer.mtu == mtu
                    && peer.addr == start.server_addr
            },
{
    lemma_finished(start, deeds, peer);
    let (i, j, mtu) = choose|i: int, j: int, mtu: u16| #[trigger]
        completed(start, deeds, i, j, mtu, peer);
    assert(deeds[i] is Receive && deeds[j] is Receive);
}

/// The deeds without what came from elsewhere than the server.
pub open spec fn without_strangers(deeds: Seq<Deed>, server_addr: SocketAddr) -> Seq<Deed>
    decreases deeds.len(),
{
    if deeds.len() == 0 {
        deeds
    } else {
        let before = without_strangers(deeds.drop_last(), server_addr);
        match deeds.last() {
            Deed::Receive { packet, addr } => if addr == server_addr {
                before.push(deeds.last())
            } else {
                before
            },
            _ => before.push(deeds.last()),
        }
    }
}

/// A whole handshake goes as if nothing had come from elsewhere than the server.
pub proof fn lemma_strangers_have_no_say(start: OfflineHandler, deeds: Seq<Deed>)
    ensures
        after_deeds(start, deeds) == after_deeds(
            start,
            without_strangers(deeds, start.server_addr),
        ),
        packets_taken(start, deeds) == packets_taken(
            start,
            without_strangers(deeds, start.server_addr),
        ),
        after_deeds(start, deeds).server_addr == start.server_addr,
    decreases deeds.len(),
{
    if deeds.len() > 0 {
        let init = deeds.drop_last();
        let before = without_strangers(init, start.server_addr);
        lemma_strangers_have_no_say(start, init);
        assert(before.push(deeds.last()).drop_last() =~= before);
    }
}

/// Nothing that comes from elsewhere has a say in the handshake.
pub proof fn lemma_strangers_ignored(
    h: OfflineHandler,
    packet: Packet<Vec<Frame<BytesMut>>>,
    addr: SocketAddr,
)
    requires
        addr != h.server_addr,
    ensures
        state_after(h, packet, addr) == h.state,
{
}

/// The task is the one that moves the handshake on: a packet is due just where it is to be sent,
/// flushing changes something just where it is to be flushed, and in no state where one of these is
/// the task does what arrives change anything. Once the handshake is finished nothing changes it.
pub proof fn lemma_task(h: OfflineHandler, packet: Packet<Vec<Frame<BytesMut>>>, addr: SocketAddr)
    ensures
        task_of(h.state) is Send <==> packet_due(h.state) is Some,
        task_of(h.state) is Flush <==> state_flushed(h.state) != h.state,
        state_after(h, packet, addr) != h.state ==> task_of(h.state) is Receive && addr
            == h.server_addr,
        task_of(h.state) is Send ==> task_of(state_sent(h.state)) is Flush,
        task_of(h.state) is Flush ==> task_of(state_flushed(h.state)) is Receive,
        task_of(h.state) matches Task::Finished(peer) ==> h.state == State::Finished(peer)
            && state_sent(h.state) == h.state && state_flushed(h.state) == h.state && state_after(
            h,
            packet,
            addr,
        ) == h.state,
{
}

/// Packets of the established connection are passed on as they are where they come from the
/// server; nothing that comes from elsewhere is, and no unconnected packet is.
pub proof fn lemma_connected_only(
    server_addr: SocketAddr,
    packet: Packet<Vec<Frame<BytesMut>>>,
    addr: SocketAddr,
)
    ensures
        connected_only(server_addr, packet, addr) matches Some(p) ==> addr == server_addr && packet
            == Packet::Connected(p),
        addr == server_addr && packet is Connected ==> connected_only(server_addr, packet, addr)
            is Some,
{
}

} // verus!
