//! Optional settings of a connection.
use vstd::prelude::*;

use crate::guard::send_buffer::{SendBuffer, Waiting};
use crate::link::{LinkView, TransferLink};

verus! {

/// Guides how a flush is performed, and holds its results. The default strategy flushes all
/// buffers.
///
/// Customizing your own strategy can achieve many features:
///
/// 1. Delayed acks based on timing, thereby reducing the number of ack packets and improving
/// bandwidth utilization. At the same time, sending based on timing can avoid deadlocks or
/// regressions caused by delaying based on the number of packets.
///
/// 2. More aggressive nack/pack flush strategy which would be more beneficial for retransmitting
/// packets.
///
/// After the flush is completed, the strategy holds the number of frames that have been flushed.
/// You can use this number to determine when to take the next flush.
#[derive(Debug, Clone, Copy)]
pub struct FlushStrategy {
    ack_tag: isize,
    nack_tag: isize,
    pack_tag: isize,
}

spec fn tag_count(tag: isize) -> Option<int> {
    if tag == -1 {
        None
    } else {
        Some(tag as int)
    }
}

impl Default for FlushStrategy {
    fn default() -> (r: FlushStrategy)
        ensures
            r.wf(),
            r.acks() == Some(0int),
            r.nacks() == Some(0int),
            r.packs() == Some(0int),
    {
        FlushStrategy { ack_tag: 0, nack_tag: 0, pack_tag: 0 }
    }
}

impl FlushStrategy {
    /// No count is negative.
    pub closed spec fn wf(self) -> bool {
        self.ack_tag >= -1 && self.nack_tag >= -1 && self.pack_tag >= -1
    }

    /// How many acks were flushed, where they are.
    pub closed spec fn acks(self) -> Option<int> {
        tag_count(self.ack_tag)
    }

    /// How many nacks were flushed, where they are.
    pub closed spec fn nacks(self) -> Option<int> {
        tag_count(self.nack_tag)
    }

    /// How many packets were flushed, where they are.
    pub closed spec fn packs(self) -> Option<int> {
        tag_count(self.pack_tag)
    }

    /// Nothing waits of what is flushed.
    pub open spec fn flushed_all(self, link: LinkView, buf: Waiting) -> bool {
        &&& self.acks() is Some ==> link.outgoing_ack.len() == 0
        &&& self.nacks() is Some ==> link.outgoing_nack.len() == 0
        &&& self.packs() is Some ==> link.unconnected.len() == 0 && buf.count() == 0
    }

    /// Whether nothing waits of what is flushed.
    pub fn check_flushed(&self, link: &TransferLink, buf: &SendBuffer) -> (r: bool)
        ensures
            r == self.flushed_all(link@, buf@),
    {
        let mut ret = true;
        if self.flush_ack() {
            ret = ret && link.outgoing_ack_empty();
        }
        if self.flush_nack() {
            ret = ret && link.outgoing_nack_empty();
        }
        if self.flush_pack() {
            ret = ret && link.unconnected_empty() && buf.is_empty();
        }
        ret
    }

    /// Create a new flush strategy with specified flush options.
    pub fn new(ack: bool, nack: bool, pack: bool) -> (r: FlushStrategy)
        ensures
            r.wf(),
            r.acks() == (if ack {
                Some(0int)
            } else {
                None
            }),
            r.nacks() == (if nack {
                Some(0int)
            } else {
                None
            }),
            r.packs() == (if pack {
                Some(0int)
            } else {
                None
            }),
    {
        FlushStrategy {
            ack_tag: if ack {
                0
            } else {
                -1
            },
            nack_tag: if nack {
                0
            } else {
                -1
            },
            pack_tag: if pack {
                0
            } else {
                -1
            },
        }
    }

    /// Get how many ack frames have been flushed. Acks must be.
    pub fn flushed_ack(&self) -> (r: usize)
        requires
            self.wf(),
            self.acks() is Some,
        ensures
            self.acks() == Some(r as int),
    {
        self.ack_tag as usize
    }

    /// Get how many nack frames have been flushed. Nacks must be.
    pub fn flushed_nack(&self) -> (r: usize)
        requires
            self.wf(),
            self.nacks() is Some,
        ensures
            self.nacks() == Some(r as int),
    {
        self.nack_tag as usize
    }

    /// Get how many pack frames have been flushed. Packets must be.
    pub fn flushed_pack(&self) -> (r: usize)
        requires
            self.wf(),
            self.packs() is Some,
        ensures
            self.packs() == Some(r as int),
    {
        self.pack_tag as usize
    }

    /// Whether acks are flushed.
    pub fn flush_ack(&self) -> (r: bool)
        ensures
            r == (self.acks() is Some),
    {
        self.ack_tag != -1
    }

    /// Whether nacks are flushed.
    pub fn flush_nack(&self) -> (r: bool)
        ensures
            r == (self.nacks() is Some),
    {
        self.nack_tag != -1
    }

    /// Whether packets are flushed.
    pub fn flush_pack(&self) -> (r: bool)
        ensures
            r == (self.packs() is Some),
    {
        self.pack_tag != -1
    }

    /// Adds acks that were flushed, where they are counted.
    pub fn mark_flushed_ack(&mut self, cnt: usize)
        requires
            old(self).wf(),
            old(self).acks() matches Some(n) ==> n + cnt <= isize::MAX,
        ensures
            final(self).wf(),
            final(self).acks() == (match old(self).acks() {
                Some(n) => Some(n + cnt),
                None => None,
            }),
            final(self).nacks() == old(self).nacks(),
            final(self).packs() == old(self).packs(),
    {
        if self.ack_tag == -1 {
            return ;
        }
        self.ack_tag = self.ack_tag + cnt as isize;
    }

    /// Adds nacks that were flushed, where they are counted.
    pub fn mark_flushed_nack(&mut self, cnt: usize)
        requires
            old(self).wf(),
            old(self).nacks() matches Some(n) ==> n + cnt <= isize::MAX,
        ensures
            final(self).wf(),
            final(self).nacks() == (match old(self).nacks() {
                Some(n) => Some(n + cnt),
                None => None,
            }),
            final(self).acks() == old(self).acks(),
            final(self).packs() == old(self).packs(),
    {
        if self.nack_tag == -1 {
            return ;
        }
        self.nack_tag = self.nack_tag + cnt as isize;
    }

    /// Adds packets that were flushed, where they are counted.
    pub fn mark_flushed_pack(&mut self, cnt: usize)
        requires
            old(self).wf(),
            old(self).packs() matches Some(n) ==> n + cnt <= isize::MAX,
        ensures
            final(self).wf(),
            final(self).packs() == (match old(self).packs() {
                Some(n) => Some(n + cnt),
                None => None,
            }),
            final(self).acks() == old(self).acks(),
            final(self).nacks() == old(self).nacks(),
    {
        if self.pack_tag == -1 {
            return ;
        }
        self.pack_tag = self.pack_tag + cnt as isize;
    }
}

/// The default strategy flushes everything: once nothing waits of what is flushed, nothing waits
/// on the link, and no frame does.
pub proof fn lemma_default_flushes_all(strategy: FlushStrategy, link: LinkView, buf: Waiting)
    requires
        strategy.acks() is Some,
        strategy.nacks() is Some,
        strategy.packs() is Some,
        strategy.flushed_all(link, buf),
    ensures
        link.flushed(),
        buf.count() == 0,
{
}

} // verus!
