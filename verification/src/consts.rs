//! Layout and interface constants.

use vstd::prelude::*;

verus! {

/// Return value for success. Note that it is not zero: callers test the
/// result truthily.
pub const E_SUCCESS: i32 = 1;

/// Return value for failure.
pub const E_FAILURE: i32 = 0;

/// Directory holding the persistent store, one file per key.
pub const MOUNT_POINT: &'static str = "/nvram/";

/// Size of the store in bytes. Also the size of the arena.
pub const NVRAM_SPACE: usize = 1048576;

/// `ftok` project id of the writer lock.
pub const IPC_KEY: i32 = 65;

/// `ftok` project id of the commit lock, which serialises commits against
/// each other.
pub const COMMIT_IPC_KEY: i32 = 66;

/// Name of the POSIX shared memory object.
pub const SHM_NAME: &'static str = "/tomato64-nvram";

/// Marks a segment as ours.
pub const SHM_MAGIC: u32 = 0x4E56_524D;

/// Version of the segment layout.
pub const SHM_VERSION: u32 = 2;

/// How often a process running without the segment retries attaching, in
/// operations.
pub const REATTACH_INTERVAL: u32 = 16;

/// Number of seqlock counters. Keys map onto these by hash.
pub const SLOTS: usize = 4096;

/// Buckets in the open-addressed key index.
pub const INDEX_SLOTS: usize = 8192;

/// Bytes of variable-length key and value storage.
pub const ARENA_SIZE: usize = NVRAM_SPACE;

/// The arena is compacted once more than this fraction of it, as a divisor,
/// is garbage.
pub const COMPACT_GARBAGE_DIVISOR: usize = 4;

/// Probes after which an index lookup gives up.
pub const MAX_PROBES: usize = 64;

/// Lock-free read attempts before a reader takes the writer lock.
pub const MAX_SEQ_RETRIES: u32 = 1000;

} // verus!
