//! A log-structured key-value store in the Bitcask style, with a line-based
//! network protocol, a client, a server and pluggable storage engines.

pub mod client;
pub mod config;
pub mod engine;
pub mod error;
pub mod kvs;
pub mod logger;
pub mod protocol;
pub mod server;
pub mod sled;
pub mod store;
pub mod thread_pool;

pub use crate::error::KvError;

use vstd::prelude::*;

verus! {

/// The result type used throughout the crate.
pub type Result<T> = std::result::Result<T, KvError>;

} // verus!

pub use crate::client::KvsClient;
pub use crate::engine::KvsEngine;
pub use crate::server::KvsServer;
pub use crate::sled::SledKvsEngine;
pub use crate::thread_pool::ThreadPool;
