//! Identity and configuration of an engine.

use vstd::prelude::*;

use crate::bytes::copy_bytes;

verus! {

broadcast use crate::bytes::lemma_bytes_deep_view, crate::bytes::lemma_slice_deep_view;

/// Default record cap for one fetch partition.
pub const DEFAULT_MAX_FETCH_RECORDS: usize = 1024;

/// Default byte cap for one fetch partition.
pub const DEFAULT_MAX_FETCH_BYTES: usize = 1024 * 1024;


/// How the broker identifies itself in metadata responses.
#[derive(Clone, Debug, Eq, PartialEq)]
pub struct BrokerIdentity {
    /// Broker node id.
    pub node_id: i32,
    /// Advertised host.
    pub host: Vec<u8>,
    /// Advertised port.
    pub port: i32,
}

/// What the identity of a broker says.
#[verifier::ext_equal]
pub struct IdentityModel {
    pub node_id: i32,
    pub host: Seq<u8>,
    pub port: i32,
}

impl DeepView for BrokerIdentity {
    type V = IdentityModel;

    open spec fn deep_view(&self) -> IdentityModel {
        IdentityModel { node_id: self.node_id, host: self.host@, port: self.port }
    }
}

impl BrokerIdentity {
    /// Creates an identity from an advertised address.
    pub fn new(node_id: i32, host: &[u8], port: i32) -> (r: Self)
        ensures
            r.deep_view() == (IdentityModel { node_id, host: host@, port }),
    {
        BrokerIdentity { node_id, host: copy_bytes(host), port }
    }
}

/// Engine tuning and identity.
#[derive(Clone, Debug, Eq, PartialEq)]
pub struct EngineConfig {
    /// Identity reported in metadata.
    pub identity: BrokerIdentity,
    /// Maximum records returned per fetch partition.
    pub max_fetch_records: usize,
    /// Maximum approximate bytes returned per fetch partition.
    pub max_fetch_bytes: usize,
}

impl EngineConfig {
    /// Creates a configuration with the default fetch bounds.
    pub fn new(identity: BrokerIdentity) -> (r: Self)
        ensures
            r == (EngineConfig {
                identity,
                max_fetch_records: DEFAULT_MAX_FETCH_RECORDS,
                max_fetch_bytes: DEFAULT_MAX_FETCH_BYTES,
            }),
    {
        EngineConfig {
            identity,
            max_fetch_records: DEFAULT_MAX_FETCH_RECORDS,
            max_fetch_bytes: DEFAULT_MAX_FETCH_BYTES,
        }
    }
}

} // verus!
