use crate::error::LsmError;
use vstd::prelude::*;

verus! {

/// The settings of a store.
pub struct StorageStateOptions {
    /// The size at which the current memtable is frozen.
    pub sst_max_size_bytes: usize,
    /// The target size of the blocks of a sorted table.
    pub block_max_size_bytes: usize,
    /// The capacity of the block cache that the tables share.
    pub block_cache_size_bytes: u64,
    /// The directory of the table files.
    pub path: String,
    /// The number of frozen memtables at which one is flushed.
    pub num_memtables_limit: usize,
}

impl StorageStateOptions {
    /// The default settings: memtables of 2 MiB, blocks of 4 KiB, a block
    /// cache of 1 MiB, the directory `lsm.db`, and a flush at three frozen
    /// memtables.
    pub fn new_with_defaults() -> (r: Result<StorageStateOptions, LsmError>)
        ensures
            r matches Ok(o) && o.sst_max_size_bytes == 0x20_0000 && o.block_max_size_bytes == 4096
                && o.block_cache_size_bytes == 0x10_0000 && o.path@ == "lsm.db"@
                && o.num_memtables_limit == 3,
    {
        Ok(
            StorageStateOptions {
                sst_max_size_bytes: 0x20_0000,
                block_max_size_bytes: 4096,
                block_cache_size_bytes: 0x10_0000,
                path: "lsm.db".to_owned(),
                num_memtables_limit: 3,
            },
        )
    }
}

} // verus!
