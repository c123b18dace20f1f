//! The core of the RakNet protocol: packets and their form on the wire, the layers that they pass
//! through on their way in and out, acknowledgements, and what is sent again when.
//!
//! The library does no input or output and reads no clock: datagrams and times are handed to it.
pub mod bit_queue;
pub mod buf;
pub mod client;
pub mod codec;
pub mod errors;
pub mod estimator;
pub mod guard;
pub mod handover;
pub mod link;
pub mod message;
pub mod opts;
pub mod packet;
pub mod peer;
pub mod sorted_queue;
pub mod timers;
pub mod uint24;
pub mod wire;

pub use crate::message::{Message, Priority};
pub use crate::packet::connected::reliability::Reliability;
