//! Tunable constants of the store, the client, the server and the pools.

use vstd::prelude::*;

verus! {

/// File extension for log files.
pub const LOG_FILE_EXT: &'static str = "log";

/// Maximum size of one log file, in bytes.
pub const LOG_FILE_SIZE: u64 = 1048576;

/// Number of stale records above which compaction is triggered.
pub const LOG_UNCOMPACT: u64 = 1000;

/// Number of stale records above which writers sleep.
pub const LOG_UNCOMPACT_SLEEP: u64 = 10000;

/// Nanoseconds a writer sleeps when the store is far behind on compaction.
pub const CMD_EXE_RATIO: u64 = 2;

/// Number of send attempts of the client.
pub const TRY_SEND: u8 = 1;

/// Largest number of send attempts of the client.
pub const TRY_SEND_MAX: u8 = 3;

/// Value that, set under the key `sd`, asks the server to shut down.
pub const SHUTDOWN_SERVER_CMD: &'static str = "019fcd63-9284-70a5-8c5d-c3e0f1cbc573";

/// Capacity of the job queue of the shared-queue pool.
pub const CHANNEL_BOUND: usize = 500000000;

/// Directory name for storing log files.
pub const LOG_FILE_DIR: &'static str = "database";

} // verus!
