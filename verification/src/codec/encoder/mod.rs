//! The way out: from messages to frames.
pub mod body;
pub mod fragment;
pub mod numbering;
