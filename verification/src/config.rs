//! Tunable options for the store.

use vstd::prelude::*;

verus! {

/// Options for the key-value store.
pub struct Config {
    /// Size, in characters of the encoded log, past which the active
    /// segment is sealed and a new one is opened.
    pub filesize_limit: u64,
    /// After a rollover, compaction runs when the new active segment id is
    /// a positive multiple of this threshold.
    pub compaction_thresh: u16,
}

impl Default for Config {
    fn default() -> (c: Config)
        ensures
            c.filesize_limit == 1024,
            c.compaction_thresh == 4,
    {
        Config { filesize_limit: 1024, compaction_thresh: 4 }
    }
}

} // verus!
