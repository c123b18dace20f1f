//! The packets of the protocol and their form on the wire.
pub mod address;
pub mod connected;
pub mod datagram;
pub mod layout;
pub mod magic;
pub mod pack_type;
pub mod unconnected;
