//! The sending half of a connection: what goes out when, and what is sent again.
pub mod closing;
pub mod flushing;
pub mod outgoing;
pub mod priorities;
pub mod resend;
pub mod send_buffer;
pub mod timing;
