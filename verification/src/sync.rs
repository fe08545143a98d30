//! The outcome record of a remote synchronization pass, as reported to the
//! caller. The synchronization itself is an external collaborator; only
//! its counters live here.

use vstd::prelude::*;

verus! {

/// How many records a synchronization pass moved in each direction.
#[derive(Clone, Debug)]
pub struct SyncResult {
    pub servers_uploaded: usize,
    pub servers_downloaded: usize,
    pub history_uploaded: usize,
    pub history_downloaded: usize,
}

impl SyncResult {
    /// Everything uploaded, across both record kinds.
    pub fn total_uploaded(&self) -> (r: usize)
        requires
            self.servers_uploaded + self.history_uploaded <= usize::MAX,
        ensures
            r == self.servers_uploaded + self.history_uploaded,
    {
        self.servers_uploaded + self.history_uploaded
    }

    /// Everything downloaded, across both record kinds.
    pub fn total_downloaded(&self) -> (r: usize)
        requires
            self.servers_downloaded + self.history_downloaded <= usize::MAX,
        ensures
            r == self.servers_downloaded + self.history_downloaded,
    {
        self.servers_downloaded + self.history_downloaded
    }
}

} // verus!
