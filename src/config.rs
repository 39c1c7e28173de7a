//! The server's configuration, read once at startup and never changed.

use vstd::prelude::*;

verus! {

pub struct ServerConfig {
    /// Directory of the snapshot file.
    pub dir: Option<Vec<u8>>,
    /// Name of the snapshot file.
    pub dbfilename: Option<Vec<u8>>,
    /// The port this server listens on.
    pub port: u16,
    /// Host and port of the primary, when this server is a replica.
    pub replica_of: Option<(Vec<u8>, u16)>,
}

/// The replication identity that this server reports as a primary.
pub struct ReplicationInfo {
    /// Generated once at startup.
    pub replication_id: Vec<u8>,
    pub offset: u64,
}

} // verus!
