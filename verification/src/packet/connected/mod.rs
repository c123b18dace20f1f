//! The packets of an established connection.
pub mod ack;
pub mod body;
pub mod flags;
pub mod frame;
pub mod frame_set;
pub mod layout;
pub mod packet;
pub mod reliability;
