//! The layers that packets pass through on their way in and out.
pub mod arrival;
pub mod assembly;
pub mod config;
pub mod decoder;
pub mod delivery;
pub mod encoder;
pub mod framed;
pub mod interleaving;
pub mod micro_bench;
pub mod peers;
pub mod pipeline;
pub mod release;
pub mod repeats;
pub mod sender;
