//! What can go wrong while packets are taken apart.
use vstd::prelude::*;

verus! {

/// Why a part of a split message was refused.
#[derive(Debug, Clone, Copy, PartialEq, Eq)]
pub enum PartedError {
    /// The part's index lies outside the count of parts that it announces.
    IndexOutOfRange { parted_index: u32, parted_size: u32 },
    /// More parts are announced than the receiver is willing to collect.
    SizeExceeded { parted_size: u32, limit_size: u32 },
}

/// Why an ordered frame was refused.
#[derive(Debug, Clone, Copy, PartialEq, Eq)]
pub struct ChannelError {
    /// The order channel that the frame names.
    pub channel: usize,
    /// How many order channels there are.
    pub max_channels: usize,
}

/// An error of the codec.
#[derive(Debug, Clone, Copy, PartialEq, Eq)]
pub enum CodecError {
    /// An address that is neither of IP version 4 nor of version 6.
    InvalidIPVer(u8),
    /// An IPv6 address whose family is not 0x17.
    InvalidIPV6Family(u16),
    /// The packet is too short, or announces an impossible length, at the named place.
    InvalidPacketLength(&'static str),
    /// A record of an ACK or NACK that is neither a range nor a single number.
    InvalidRecordType(u8),
    /// A packet type that cannot stand here, maybe a user packet.
    InvalidPacketType(u8),
    /// A part of a split message that cannot be collected.
    PartedFrame(PartedError),
    /// A frame on an order channel that does not exist.
    OrderedFrame(ChannelError),
    /// An ACK or NACK that covers more sequence numbers than are accepted at once.
    AckCountExceed(usize),
    /// The magic sequence is broken at this position by this byte.
    MagicNotMatched(usize, u8),
}

} // verus!
