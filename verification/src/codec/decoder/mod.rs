//! The way in: from frame sets to messages.
pub mod body;
pub mod dedup;
pub mod fragment;
pub mod ordered;
pub mod parts;
pub mod passage;
