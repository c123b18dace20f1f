//! The client: how it opens a connection.
pub mod config;
pub mod offline;
pub mod online;
