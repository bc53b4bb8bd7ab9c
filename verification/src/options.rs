//! Startup configuration, as the command line provides it.
use vstd::prelude::*;

verus! {

/// The server's configuration: where the snapshot lives, the listening
/// port, and the replication settings.
#[derive(Debug)]
pub struct DBOption {
    pub dir: String,
    pub db_file_name: String,
    pub replication: ReplicationOption,
    pub port: u16,
}

/// The replication settings: the role's name (`master` or `slave`), the
/// replication id announced to followers, the configured starting
/// offset, and the leader's address when starting as a follower.
#[derive(Debug)]
pub struct ReplicationOption {
    pub role: String,
    pub master_replid: String,
    pub master_repl_offset: u64,
    pub replica_of: Option<String>,
}

} // verus!
