//! Packet types: the first byte of a datagram, or of a frame body.
use vstd::prelude::*;

use crate::errors::CodecError;

verus! {

/// Set in the first byte of every datagram of an established connection.
pub const VALID_FLAG: u8 = 0b1000_0000;

/// The first byte of an ACK.
pub const ACK_FLAG: u8 = 0b1100_0000;

/// The first byte of a NACK.
pub const NACK_FLAG: u8 = 0b1010_0000;

/// Set in the flags of a frame that carries a part of a split message.
pub const PARTED_FLAG: u8 = 0b0001_0000;

/// Set in the first byte of a frame set whose first frame is a part of a split message.
pub const CONTINUOUS_SEND_FLAG: u8 = 0b0000_1000;

/// Set in the first byte of a frame set, and in the flags of a frame.
pub const NEEDS_B_AND_AS_FLAG: u8 = 0b0000_0100;

/// The packets that have a role in the protocol. Some appear as the first byte of a datagram,
/// others as the first byte of a frame body.
#[derive(Debug, Clone, Copy, PartialEq, Eq, Structural)]
pub enum PackType {
    ConnectedPing,
    UnconnectedPing1,
    UnconnectedPing2,
    ConnectedPong,
    DetectLostConnections,
    OpenConnectionRequest1,
    OpenConnectionReply1,
    OpenConnectionRequest2,
    OpenConnectionReply2,
    ConnectionRequest,
    ConnectionRequestAccepted,
    ConnectionRequestFailed,
    AlreadyConnected,
    NewIncomingConnection,
    NoFreeIncomingConnections,
    DisconnectNotification,
    ConnectionLost,
    ConnectionBanned,
    IncompatibleProtocolVersion,
    IpRecentlyConnected,
    Timestamp,
    UnconnectedPong,
    AdvertiseSystem,
    /// Any byte from `ACK_FLAG` up; written as `ACK_FLAG`.
    Ack,
    /// Any byte from `NACK_FLAG` up to `ACK_FLAG`; written as `NACK_FLAG`.
    Nack,
    /// Any byte from `VALID_FLAG` up to `NACK_FLAG`; written as `VALID_FLAG`.
    FrameSet,
}

impl PackType {
    /// The byte that stands for the type.
    pub open spec fn code(self) -> u8 {
        match self {
            PackType::ConnectedPing => 0x00,
            PackType::UnconnectedPing1 => 0x01,
            PackType::UnconnectedPing2 => 0x02,
            PackType::ConnectedPong => 0x03,
            PackType::DetectLostConnections => 0x04,
            PackType::OpenConnectionRequest1 => 0x05,
            PackType::OpenConnectionReply1 => 0x06,
            PackType::OpenConnectionRequest2 => 0x07,
            PackType::OpenConnectionReply2 => 0x08,
            PackType::ConnectionRequest => 0x09,
            PackType::ConnectionRequestAccepted => 0x10,
            PackType::ConnectionRequestFailed => 0x11,
            PackType::AlreadyConnected => 0x12,
            PackType::NewIncomingConnection => 0x13,
            PackType::NoFreeIncomingConnections => 0x14,
            PackType::DisconnectNotification => 0x15,
            PackType::ConnectionLost => 0x16,
            PackType::ConnectionBanned => 0x17,
            PackType::IncompatibleProtocolVersion => 0x19,
            PackType::IpRecentlyConnected => 0x1a,
            PackType::Timestamp => 0x1b,
            PackType::UnconnectedPong => 0x1c,
            PackType::AdvertiseSystem => 0x1d,
            PackType::Ack => 0xc0,
            PackType::Nack => 0xa0,
            PackType::FrameSet => 0x80,
        }
    }

    /// `id` is a byte that stands for this type: the datagrams of an established connection
    /// keep a range each, every other type has the one byte.
    pub open spec fn covers(self, id: u8) -> bool {
        match self {
            PackType::Ack => 0xc0 <= id,
            PackType::Nack => 0xa0 <= id < 0xc0,
            PackType::FrameSet => 0x80 <= id < 0xa0,
            _ => id == self.code(),
        }
    }

    /// The type that a byte stands for.
    pub fn from_u8(id: u8) -> (r: Result<PackType, CodecError>)
        ensures
            r matches Ok(t) ==> t.covers(id),
            r is Err ==> (forall|t: PackType| !t.covers(id)),
            r matches Err(e) ==> e == CodecError::InvalidPacketType(id),
    {
        match id {
            0x00 => Ok(PackType::ConnectedPing),
            0x01 => Ok(PackType::UnconnectedPing1),
            0x02 => Ok(PackType::UnconnectedPing2),
            0x03 => Ok(PackType::ConnectedPong),
            0x04 => Ok(PackType::DetectLostConnections),
            0x05 => Ok(PackType::OpenConnectionRequest1),
            0x06 => Ok(PackType::OpenConnectionReply1),
            0x07 => Ok(PackType::OpenConnectionRequest2),
            0x08 => Ok(PackType::OpenConnectionReply2),
            0x09 => Ok(PackType::ConnectionRequest),
            0x10 => Ok(PackType::ConnectionRequestAccepted),
            0x11 => Ok(PackType::ConnectionRequestFailed),
            0x12 => Ok(PackType::AlreadyConnected),
            0x13 => Ok(PackType::NewIncomingConnection),
            0x14 => Ok(PackType::NoFreeIncomingConnections),
            0x15 => Ok(PackType::DisconnectNotification),
            0x16 => Ok(PackType::ConnectionLost),
            0x17 => Ok(PackType::ConnectionBanned),
            0x19 => Ok(PackType::IncompatibleProtocolVersion),
            0x1a => Ok(PackType::IpRecentlyConnected),
            0x1b => Ok(PackType::Timestamp),
            0x1c => Ok(PackType::UnconnectedPong),
            0x1d => Ok(PackType::AdvertiseSystem),
            _ => {
                if id >= ACK_FLAG {
                    Ok(PackType::Ack)
                } else if id >= NACK_FLAG {
                    Ok(PackType::Nack)
                } else if id >= VALID_FLAG {
                    Ok(PackType::FrameSet)
                } else {
                    Err(CodecError::InvalidPacketType(id))
                }
            },
        }
    }

    /// The byte that stands for the type.
    pub fn to_u8(self) -> (r: u8)
        ensures
            r == self.code(),
    {
        match self {
            PackType::ConnectedPing => 0x00,
            PackType::UnconnectedPing1 => 0x01,
            PackType::UnconnectedPing2 => 0x02,
            PackType::ConnectedPong => 0x03,
            PackType::DetectLostConnections => 0x04,
            PackType::OpenConnectionRequest1 => 0x05,
            PackType::OpenConnectionReply1 => 0x06,
            PackType::OpenConnectionRequest2 => 0x07,
            PackType::OpenConnectionReply2 => 0x08,
            PackType::ConnectionRequest => 0x09,
            PackType::ConnectionRequestAccepted => 0x10,
            PackType::ConnectionRequestFailed => 0x11,
            PackType::AlreadyConnected => 0x12,
            PackType::NewIncomingConnection => 0x13,
            PackType::NoFreeIncomingConnections => 0x14,
            PackType::DisconnectNotification => 0x15,
            PackType::ConnectionLost => 0x16,
            PackType::ConnectionBanned => 0x17,
            PackType::IncompatibleProtocolVersion => 0x19,
            PackType::IpRecentlyConnected => 0x1a,
            PackType::Timestamp => 0x1b,
            PackType::UnconnectedPong => 0x1c,
            PackType::AdvertiseSystem => 0x1d,
            PackType::Ack => ACK_FLAG,
            PackType::Nack => NACK_FLAG,
            PackType::FrameSet => VALID_FLAG,
        }
    }

    /// Whether it is a frame set packet.
    pub fn is_frame_set(&self) -> (r: bool)
        ensures
            r == (*self is FrameSet),
    {
        matches!(self, PackType::FrameSet)
    }

    /// Whether it is an ACK.
    pub fn is_ack(&self) -> (r: bool)
        ensures
            r == (*self is Ack),
    {
        matches!(self, PackType::Ack)
    }

    /// Whether it is a NACK.
    pub fn is_nack(&self) -> (r: bool)
        ensures
            r == (*self is Nack),
    {
        matches!(self, PackType::Nack)
    }
}

/// The type that a byte announces.
pub open spec fn type_of(id: u8) -> Option<PackType> {
    if exists|t: PackType| t.covers(id) {
        Some(choose|t: PackType| t.covers(id))
    } else {
        None
    }
}

/// A byte stands for at most one packet type.
pub proof fn lemma_pack_type_unique(a: PackType, b: PackType, id: u8)
    requires
        a.covers(id),
        b.covers(id),
    ensures
        a == b,
{
}

/// The byte that is written for a packet type is read as that type.
pub proof fn lemma_pack_type_roundtrip(t: PackType)
    ensures
        t.covers(t.code()),
{
}

/// The type that stands for a byte is the one that the byte announces.
pub proof fn lemma_type_of(id: u8, t: PackType)
    requires
        t.covers(id),
    ensures
        type_of(id) == Some(t),
{
    lemma_pack_type_unique(t, type_of(id)->Some_0, id);
}

/// What each byte stands for.
pub proof fn lemma_type_table(id: u8)
    ensures
        type_of(id) == (if id == 0x00 {
            Some(PackType::ConnectedPing)
        } else if id == 0x01 {
            Some(PackType::UnconnectedPing1)
        } else if id == 0x02 {
            Some(PackType::UnconnectedPing2)
        } else if id == 0x03 {
            Some(PackType::ConnectedPong)
        } else if id == 0x04 {
            Some(PackType::DetectLostConnections)
        } else if id == 0x05 {
            Some(PackType::OpenConnectionRequest1)
        } else if id == 0x06 {
            Some(PackType::OpenConnectionReply1)
        } else if id == 0x07 {
            Some(PackType::OpenConnectionRequest2)
        } else if id == 0x08 {
            Some(PackType::OpenConnectionReply2)
        } else if id == 0x09 {
            Some(PackType::ConnectionRequest)
        } else if id == 0x10 {
            Some(PackType::ConnectionRequestAccepted)
        } else if id == 0x11 {
            Some(PackType::ConnectionRequestFailed)
        } else if id == 0x12 {
            Some(PackType::AlreadyConnected)
        } else if id == 0x13 {
            Some(PackType::NewIncomingConnection)
        } else if id == 0x14 {
            Some(PackType::NoFreeIncomingConnections)
        } else if id == 0x15 {
            Some(PackType::DisconnectNotification)
        } else if id == 0x16 {
            Some(PackType::ConnectionLost)
        } else if id == 0x17 {
            Some(PackType::ConnectionBanned)
        } else if id == 0x19 {
            Some(PackType::IncompatibleProtocolVersion)
        } else if id == 0x1a {
            Some(PackType::IpRecentlyConnected)
        } else if id == 0x1b {
            Some(PackType::Timestamp)
        } else if id == 0x1c {
            Some(PackType::UnconnectedPong)
        } else if id == 0x1d {
            Some(PackType::AdvertiseSystem)
        } else if id >= 0xc0 {
            Some(PackType::Ack)
        } else if id >= 0xa0 {
            Some(PackType::Nack)
        } else if id >= 0x80 {
            Some(PackType::FrameSet)
        } else {
            None
        }),
{
    if let Some(t) = type_of(id) {
        assert(t.covers(id));
    }
    if id == 0x00 {
        assert(PackType::ConnectedPing.covers(id));
    } else if id == 0x01 {
        assert(PackType::UnconnectedPing1.covers(id));
    } else if id == 0x02 {
        assert(PackType::UnconnectedPing2.covers(id));
    } else if id == 0x03 {
        assert(PackType::ConnectedPong.covers(id));
    } else if id == 0x04 {
        assert(PackType::DetectLostConnections.covers(id));
    } else if id == 0x05 {
        assert(PackType::OpenConnectionRequest1.covers(id));
    } else if id == 0x06 {
        assert(PackType::OpenConnectionReply1.covers(id));
    } else if id == 0x07 {
        assert(PackType::OpenConnectionRequest2.covers(id));
    } else if id == 0x08 {
        assert(PackType::OpenConnectionReply2.covers(id));
    } else if id == 0x09 {
        assert(PackType::ConnectionRequest.covers(id));
    } else if id == 0x10 {
        assert(PackType::ConnectionRequestAccepted.covers(id));
    } else if id == 0x11 {
        assert(PackType::ConnectionRequestFailed.covers(id));
    } else if id == 0x12 {
        assert(PackType::AlreadyConnected.covers(id));
    } else if id == 0x13 {
        assert(PackType::NewIncomingConnection.covers(id));
    } else if id == 0x14 {
        assert(PackType::NoFreeIncomingConnections.covers(id));
    } else if id == 0x15 {
        assert(PackType::DisconnectNotification.covers(id));
    } else if id == 0x16 {
        assert(PackType::ConnectionLost.covers(id));
    } else if id == 0x17 {
        assert(PackType::ConnectionBanned.covers(id));
    } else if id == 0x19 {
        assert(PackType::IncompatibleProtocolVersion.covers(id));
    } else if id == 0x1a {
        assert(PackType::IpRecentlyConnected.covers(id));
    } else if id == 0x1b {
        assert(PackType::Timestamp.covers(id));
    } else if id == 0x1c {
        assert(PackType::UnconnectedPong.covers(id));
    } else if id == 0x1d {
        assert(PackType::AdvertiseSystem.covers(id));
    } else if id >= 0xc0 {
        assert(PackType::Ack.covers(id));
    } else if id >= 0xa0 {
        assert(PackType::Nack.covers(id));
    } else if id >= 0x80 {
        assert(PackType::FrameSet.covers(id));
    }
}

} // verus!
