//! Settings of the codec.
use vstd::prelude::*;

verus! {

/// Codec config.
#[derive(Debug, Clone, Copy, PartialEq, Eq, Structural)]
pub struct Config {
    /// Limit the max size of a parted frames set, 0 means no limit. It will abort the split frame
    /// if the `parted_size` reaches limit. The maximum number of inflight parted frames is
    /// `max_parted_size` * `max_parted_count`.
    pub max_parted_size: u32,
    /// Limit the max count of **all** parted frames sets from an address. It might cause client
    /// resending frames if the limit is reached. The maximum number of inflight parted frames is
    /// `max_parted_size` * `max_parted_count`.
    pub max_parted_count: usize,
    /// Maximum ordered channel, the value should be less than 256.
    pub max_channels: usize,
}

impl Default for Config {
    /// The recommended configuration.
    fn default() -> (r: Config)
        ensures
            r == (Config { max_parted_size: 256, max_parted_count: 256, max_channels: 1 }),
    {
        Config { max_parted_size: 256, max_parted_count: 256, max_channels: 1 }
    }
}

/// Limits of a codec for many peers.
#[derive(Debug, Clone, Copy, PartialEq, Eq, Structural)]
pub struct CodecConfig {
    /// Limit the max size of a parted frames set, 0 means no limit. It will abort the split frame
    /// if the parted_size reaches limit.
    pub limit_size: u32,
    /// Limit the max count of all parted frames sets from an address. It might cause client
    /// resending frames if the limit is reached.
    pub limit_parted: usize,
}

impl Default for CodecConfig {
    /// The recommended configuration.
    fn default() -> (r: CodecConfig)
        ensures
            r == (CodecConfig { limit_size: 256, limit_parted: 256 }),
    {
        CodecConfig { limit_size: 256, limit_parted: 256 }
    }
}

impl CodecConfig {
    /// A configuration with these limits.
    pub fn new(limit_size: u32, limit_parted: usize) -> (r: CodecConfig)
        ensures
            r == (CodecConfig { limit_size, limit_parted }),
    {
        CodecConfig { limit_size, limit_parted }
    }
}

} // verus!
