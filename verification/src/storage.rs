//! The rows the application keeps in its SQLite store.
use vstd::prelude::*;

verus! {

/// Local device identity row stored under the fixed primary key 'self'.
#[derive(Debug, Clone)]
pub struct LocalDeviceRow {
    pub device_id: String,
    pub device_name: String,
    pub pubkey_b64: String,
    pub privkey_b64: String,
}

/// A row in the trusted_peers table.
#[derive(Debug, Clone)]
pub struct TrustedPeerRow {
    pub device_id: String,
    pub device_name: String,
    pub pubkey_b64: String,
    pub fingerprint: String,
    pub paired_at: i64,
    pub last_seen: Option<i64>,
}

/// A row in the transfer_history table (without the auto-increment id).
#[derive(Debug, Clone)]
pub struct TransferHistoryRow {
    pub peer_device_id: String,
    pub filename: String,
    pub remote_path: String,
    pub local_path: String,
    pub size: Option<i64>,
    pub bytes_received: i64,
    pub status: String,
    pub started_at: i64,
    pub completed_at: Option<i64>,
    pub transfer_id: Option<String>,
}

/// A row in the files index table.
#[derive(Debug, Clone)]
pub struct FileRow {
    pub name: String,
    pub path: String,
    pub parent_path: String,
    pub file_type: String,
    pub size: Option<i64>,
    pub last_modified: Option<i64>,
    pub extension: Option<String>,
    pub is_hidden: i64,
}

/// A row in the applications table (a discovered installed application).
#[derive(Debug, Clone)]
pub struct AppRow {
    pub id: i64,
    pub name: String,
    /// Command or path used to launch the application.
    pub command: String,
    pub icon_path: Option<String>,
    pub platform: String,
    pub source_path: String,
}

/// A row in the indexed_dirs table.
#[derive(Debug, Clone)]
pub struct IndexedDirRow {
    pub path: String,
    pub file_count: i64,
    pub last_indexed: Option<i64>,
}

/// Position of the first trusted peer with the given device id.
pub fn find_trusted_peer(peers: &[TrustedPeerRow], device_id: &str) -> (r: Option<usize>)
    ensures
        match r {
            Some(i) => i < peers@.len() && peers@[i as int].device_id@ == device_id@
                && forall|j: int| 0 <= j < i ==> (#[trigger] peers@[j]).device_id@ != device_id@,
            None => forall|j: int| 0 <= j < peers@.len() ==> (#[trigger] peers@[j]).device_id@ != device_id@,
        },
{
    let mut i: usize = 0;
    while i < peers.len()
        invariant
            i <= peers@.len(),
            forall|j: int| 0 <= j < i ==> (#[trigger] peers@[j]).device_id@ != device_id@,
        decreases peers@.len() - i,
    {
        if crate::text::str_eq(peers[i].device_id.as_str(), device_id) {
            return Some(i);
        }
        i = i + 1;
    }
    None
}

} // verus!
