//! Who takes part in a connection.
use vstd::prelude::*;

use crate::packet::address::SocketAddr;

verus! {

/// The `Role` enum is used to identify the client and the server, and it stores their GUID. The
/// GUID is a globally unique identifier that is not affected by changes to IP address or port. It
/// is application-defined and ensures unique identification.
#[derive(Debug, Clone, Copy, PartialEq, Eq, Structural)]
pub enum Role {
    Client { guid: u64 },
    Server { guid: u64 },
}

impl Role {
    /// The identifier.
    pub fn guid(&self) -> (r: u64)
        ensures
            r == (match *self {
                Role::Client { guid } => guid,
                Role::Server { guid } => guid,
            }),
    {
        match self {
            Role::Client { guid } => *guid,
            Role::Server { guid } => *guid,
        }
    }
}

/// The other end of a connection.
#[derive(Debug, Clone, Copy, PartialEq, Eq, Structural)]
pub struct Peer {
    pub guid: u64,
    pub addr: SocketAddr,
    /// The size of the largest packet that the way to the peer takes.
    pub mtu: u16,
}

} // verus!
