//! How a message is to be delivered.
use vstd::prelude::*;

verus! {

/// The guarantees that a message is sent with.
#[derive(Debug, Clone, Copy, PartialEq, Eq, Structural)]
pub enum Reliability {
    /// Same as regular UDP, except that duplicate datagrams are discarded.
    Unreliable,
    /// Regular UDP with a sequence counter. Out of order messages are discarded.
    UnreliableSequenced,
    /// The message is sent reliably, but not necessarily in any order.
    Reliable,
    /// The message is sent reliably and arrives in the order it was sent in. Messages are held
    /// back while they wait for those before them.
    ReliableOrdered,
    /// The message is sent reliably and arrives in sequence. Out of order messages are dropped.
    ReliableSequenced,
    /// Same as `Unreliable`, with a receipt.
    UnreliableWithAckReceipt,
    /// Same as `Reliable`, with a receipt.
    ReliableWithAckReceipt,
    /// Same as `ReliableOrdered`, with a receipt.
    ReliableOrderedWithAckReceipt,
}

impl Reliability {
    /// The three bits that stand for the reliability.
    pub open spec fn code(self) -> u8 {
        match self {
            Reliability::Unreliable => 0,
            Reliability::UnreliableSequenced => 1,
            Reliability::Reliable => 2,
            Reliability::ReliableOrdered => 3,
            Reliability::ReliableSequenced => 4,
            Reliability::UnreliableWithAckReceipt => 5,
            Reliability::ReliableWithAckReceipt => 6,
            Reliability::ReliableOrderedWithAckReceipt => 7,
        }
    }

    /// A frame carries a number that tells whether it arrived before.
    pub open spec fn reliable(self) -> bool {
        self is Reliable || self is ReliableSequenced || self is ReliableOrdered
            || self is ReliableWithAckReceipt || self is ReliableOrderedWithAckReceipt
    }

    /// A frame carries its place on an order channel.
    pub open spec fn sequenced_or_ordered(self) -> bool {
        self is ReliableSequenced || self is ReliableOrdered || self is UnreliableSequenced
            || self is ReliableOrderedWithAckReceipt
    }

    /// A frame carries a number that tells whether a later one arrived before.
    pub open spec fn sequenced(self) -> bool {
        self is UnreliableSequenced || self is ReliableSequenced
    }

    /// The size of a frame's header without the part on fragments: flags, length and the numbers
    /// that the reliability asks for.
    pub open spec fn header_size(self) -> nat {
        (3 + (if self.reliable() {
            3int
        } else {
            0
        }) + (if self.sequenced() {
            3int
        } else {
            0
        }) + (if self.sequenced_or_ordered() {
            4int
        } else {
            0
        })) as nat
    }

    /// The three bits that stand for the reliability.
    pub fn to_u8(self) -> (r: u8)
        ensures
            r == self.code(),
            r <= 7,
    {
        match self {
            Reliability::Unreliable => 0,
            Reliability::UnreliableSequenced => 1,
            Reliability::Reliable => 2,
            Reliability::ReliableOrdered => 3,
            Reliability::ReliableSequenced => 4,
            Reliability::UnreliableWithAckReceipt => 5,
            Reliability::ReliableWithAckReceipt => 6,
            Reliability::ReliableOrderedWithAckReceipt => 7,
        }
    }

    /// The reliability that three bits stand for.
    pub fn from_code(code: u8) -> (r: Reliability)
        requires
            code <= 7,
        ensures
            r.code() == code,
    {
        match code {
            0 => Reliability::Unreliable,
            1 => Reliability::UnreliableSequenced,
            2 => Reliability::Reliable,
            3 => Reliability::ReliableOrdered,
            4 => Reliability::ReliableSequenced,
            5 => Reliability::UnreliableWithAckReceipt,
            6 => Reliability::ReliableWithAckReceipt,
            _ => Reliability::ReliableOrderedWithAckReceipt,
        }
    }

    /// Reliable ensures that the packet is not duplicated.
    pub fn is_reliable(&self) -> (r: bool)
        ensures
            r == self.reliable(),
    {
        matches!(
            self,
            Reliability::Reliable
            | Reliability::ReliableSequenced
            | Reliability::ReliableOrdered
            | Reliability::ReliableWithAckReceipt
            | Reliability::ReliableOrderedWithAckReceipt
        )
    }

    /// Sequenced or ordered ensures that packets are received in order on their channel.
    pub fn is_sequenced_or_ordered(&self) -> (r: bool)
        ensures
            r == self.sequenced_or_ordered(),
    {
        matches!(
            self,
            Reliability::ReliableSequenced
            | Reliability::ReliableOrdered
            | Reliability::UnreliableSequenced
            | Reliability::ReliableOrderedWithAckReceipt
        )
    }

    /// Whether frames carry a sequence number of their own.
    pub fn is_sequenced(&self) -> (r: bool)
        ensures
            r == self.sequenced(),
    {
        matches!(self, Reliability::UnreliableSequenced | Reliability::ReliableSequenced)
    }

    /// The header size (without fragment part) implied from reliability.
    pub fn size(&self) -> (r: usize)
        ensures
            r == self.header_size(),
            3 <= r <= 13,
    {
        // flags (1 byte) and length (2 bytes)
        let mut size: usize = 3;
        if self.is_reliable() {
            size = size + 3;
        }
        if self.is_sequenced() {
            size = size + 3;
        }
        if self.is_sequenced_or_ordered() {
            size = size + 4;
        }
        size
    }
}

/// Different reliabilities have different bits.
pub proof fn lemma_code_injective(a: Reliability, b: Reliability)
    requires
        a.code() == b.code(),
    ensures
        a == b,
{
}

} // verus!
