//! Settings of a client.
use vstd::prelude::*;

use crate::client::offline;
use crate::codec;
use crate::peer::Role;

verus! {

/// Settings of a client's connection.
#[derive(Debug, Clone, Copy, PartialEq, Eq, Structural)]
pub struct Config {
    /// The given mtu, the default value is 1400.
    pub mtu: u16,
    /// The client guid, used to identify the client, initialized by random.
    pub client_guid: u64,
    /// Raknet protocol version, default is 9.
    pub protocol_version: u8,
    /// Limit the max size of a parted frames set, 0 means no limit. It will abort the split frame
    /// if the `parted_size` reaches limit. The maximum number of inflight parted frames is
    /// `max_parted_size` * `max_parted_count`.
    pub max_parted_size: u32,
    /// Limit the max count of **all** parted frames sets from an address. It might cause client
    /// resending frames if the limit is reached. The maximum number of inflight parted frames is
    /// `max_parted_size` * `max_parted_count`.
    pub max_parted_count: usize,
    /// Maximum ordered channel, the value should be less than 256.
    pub max_channels: usize,
}

/// `rand::random`: some number, of which nothing is known.
#[verifier::external_body]
fn random_guid() -> (r: u64) {
    rand::random()
}

impl Default for Config {
    fn default() -> (r: Config)
        ensures
            r == Config::defaults(r.client_guid),
    {
        Config::new()
    }
}

impl Config {
    /// The default settings of the client with this guid.
    pub open spec fn defaults(client_guid: u64) -> Config {
        Config {
            mtu: 1400,
            client_guid,
            protocol_version: 9,
            max_parted_size: 256,
            max_parted_count: 256,
            max_channels: 1,
        }
    }

    /// The default settings, with a random guid.
    pub fn new() -> (r: Config)
        ensures
            r == Config::defaults(r.client_guid),
    {
        Config::with_guid(random_guid())
    }

    /// The default settings of the client with this guid.
    pub fn with_guid(client_guid: u64) -> (r: Config)
        ensures
            r == Config::defaults(client_guid),
    {
        Config {
            mtu: 1400,
            client_guid,
            protocol_version: 9,
            max_parted_size: 256,
            max_parted_count: 256,
            max_channels: 1,
        }
    }

    /// Give the mtu of the connection.
    pub fn mtu(self, mtu: u16) -> (r: Config)
        ensures
            r == (Config { mtu, ..self }),
    {
        Config { mtu, ..self }
    }

    /// Set the client guid.
    pub fn client_guid(self, client_guid: u64) -> (r: Config)
        ensures
            r == (Config { client_guid, ..self }),
    {
        Config { client_guid, ..self }
    }

    /// Set the protocol version.
    pub fn protocol_version(self, protocol_version: u8) -> (r: Config)
        ensures
            r == (Config { protocol_version, ..self }),
    {
        Config { protocol_version, ..self }
    }

    /// Set the maximum parted size. The default value is 256. The maximum number of inflight
    /// parted frames is `max_parted_size` * `max_parted_count`.
    pub fn max_parted_size(self, size: u32) -> (r: Config)
        ensures
            r == (Config { max_parted_size: size, ..self }),
    {
        Config { max_parted_size: size, ..self }
    }

    /// Set the maximum parted count. The default value is 256. The maximum number of inflight
    /// parted frames is `max_parted_size` * `max_parted_count`.
    pub fn max_parted_count(self, count: usize) -> (r: Config)
        ensures
            r == (Config { max_parted_count: count, ..self }),
    {
        Config { max_parted_count: count, ..self }
    }

    /// Set the maximum channels. The default value is 1. The value must be less than 256.
    pub fn max_channels(self, channels: usize) -> (r: Config)
        requires
            channels < 256,
        ensures
            r == (Config { max_channels: channels, ..self }),
    {
        Config { max_channels: channels, ..self }
    }

    /// What the first part of the handshake needs.
    pub fn offline_config(&self) -> (r: offline::Config)
        ensures
            r == (offline::Config {
                mtu: self.mtu,
                client_guid: self.client_guid,
                protocol_version: self.protocol_version,
            }),
    {
        offline::Config {
            mtu: self.mtu,
            client_guid: self.client_guid,
            protocol_version: self.protocol_version,
        }
    }

    /// What the codec needs.
    pub fn codec_config(&self) -> (r: codec::config::Config)
        ensures
            r == (codec::config::Config {
                max_parted_size: self.max_parted_size,
                max_parted_count: self.max_parted_count,
                max_channels: self.max_channels,
            }),
    {
        codec::config::Config {
            max_parted_size: self.max_parted_size,
            max_parted_count: self.max_parted_count,
            max_channels: self.max_channels,
        }
    }

    /// Who the client is.
    pub fn client_role(&self) -> (r: Role)
        ensures
            r == (Role::Client { guid: self.client_guid }),
    {
        Role::Client { guid: self.client_guid }
    }
}

/// The default settings of any client: packets of 1400 bytes, version 9 of the protocol, up to 256
/// split messages of up to 256 parts each, and one order channel.
pub proof fn lemma_defaults(client_guid: u64)
    ensures
        ({
            let c = Config::defaults(client_guid);
            &&& c.client_guid == client_guid
            &&& c.mtu == 1400
            &&& c.protocol_version == 9
            &&& c.max_parted_size == 256
            &&& c.max_parted_count == 256
            &&& c.max_channels == 1
        }),
{
}

} // verus!
