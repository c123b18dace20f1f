//! What a user sends.
use bytes::Bytes;
use vstd::prelude::*;

use crate::packet::connected::reliability::Reliability;

verus! {

/// Message priority, messages with higher priority will be transmitted first.
///
/// There are three tiers: High, Medium, Low. The High and Low tiers come with a numeric penalty.
/// The lowest priority one is Low(255), and the highest priority one is High(0).
///
/// Low(255) ~ Low(0) | Medium | High(255) ~ High(0)
/// >>>-------- priority from low to high ------->>>
///
/// The message will be sent at a Medium tier by default.
#[derive(Debug, Clone, Copy, PartialEq, Eq, Structural)]
pub enum Priority {
    High(u8),
    Medium,
    Low(u8),
}

impl Default for Priority {
    fn default() -> (r: Priority)
        ensures
            r == Priority::Medium,
    {
        Priority::Medium
    }
}

/// A message, and how it is to be delivered.
#[derive(Debug, Clone)]
pub struct Message {
    pub reliability: Reliability,
    pub order_channel: u8,
    pub priority: Priority,
    pub data: Bytes,
}

impl Message {
    /// A message that is delivered reliably and in order, on the first channel and with medium
    /// priority.
    pub fn new(data: Bytes) -> (r: Message)
        ensures
            r == (Message {
                reliability: Reliability::ReliableOrdered,
                order_channel: 0,
                priority: Priority::Medium,
                data,
            }),
    {
        Message {
            reliability: Reliability::ReliableOrdered,
            order_channel: 0,
            priority: Priority::default(),
            data,
        }
    }

    /// The same message with another reliability.
    pub fn reliability(self, reliability: Reliability) -> (r: Message)
        ensures
            r == (Message { reliability, ..self }),
    {
        Message { reliability, ..self }
    }

    /// The same message on another channel.
    pub fn order_channel(self, channel: u8) -> (r: Message)
        ensures
            r == (Message { order_channel: channel, ..self }),
    {
        Message { order_channel: channel, ..self }
    }

    /// The same message with another priority.
    pub fn priority(self, priority: Priority) -> (r: Message)
        ensures
            r == (Message { priority, ..self }),
    {
        Message { priority, ..self }
    }
}

/// How messages are delivered where a user hands over nothing but bytes.
#[derive(Debug, Clone, Copy, PartialEq, Eq, Structural)]
pub struct SendDefaults {
    pub reliability: Reliability,
    pub order_channel: u8,
}

impl SendDefaults {
    /// Reliably and in order, on the first channel.
    pub fn new() -> (r: SendDefaults)
        ensures
            r == (SendDefaults { reliability: Reliability::ReliableOrdered, order_channel: 0 }),
    {
        SendDefaults { reliability: Reliability::ReliableOrdered, order_channel: 0 }
    }

    /// Sets the reliability.
    pub fn set_default_reliability(&mut self, reliability: Reliability)
        ensures
            *final(self) == (SendDefaults { reliability, ..*old(self) }),
    {
        self.reliability = reliability;
    }

    /// The reliability.
    pub fn get_default_reliability(&self) -> (r: Reliability)
        ensures
            r == self.reliability,
    {
        self.reliability
    }

    /// Sets the channel.
    pub fn set_default_order_channel(&mut self, order_channel: u8)
        ensures
            *final(self) == (SendDefaults { order_channel, ..*old(self) }),
    {
        self.order_channel = order_channel;
    }

    /// The channel.
    pub fn get_default_order_channel(&self) -> (r: u8)
        ensures
            r == self.order_channel,
    {
        self.order_channel
    }

    /// The message that carries the bytes.
    pub fn message(&self, data: Bytes) -> (r: Message)
        ensures
            r == (Message {
                reliability: self.reliability,
                order_channel: self.order_channel,
                priority: Priority::Medium,
                data,
            }),
    {
        Message::new(data).reliability(self.reliability).order_channel(self.order_channel)
    }
}

} // verus!
