//! Multiplayer servers shared between instances.

use vstd::prelude::*;

use crate::paths::{join_path, path_joined};

verus! {

/// A server entry kept in the shared server list.
#[derive(Clone, Debug)]
pub struct SyncedServer {
    pub id: String,
    pub position: i64,
    pub nbt: Vec<u8>,
}

/// The shared server list: `servers.dat` in the synced options directory.
pub fn canonical_path(synced_options_dir: &str) -> (r: String)
    ensures
        r@ == path_joined(synced_options_dir@, "servers.dat"@),
{
    join_path(synced_options_dir, "servers.dat")
}

/// Whether the shared server list has to be seeded from an instance: when
/// servers are synced, the instance has a server list and the shared list
/// does not exist yet.
pub fn should_seed_servers(syncs_servers: bool, local_exists: bool, canonical_exists: bool) -> (r:
    bool)
    ensures
        r == (syncs_servers && local_exists && !canonical_exists),
{
    syncs_servers && local_exists && !canonical_exists
}

} // verus!
