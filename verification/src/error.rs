//! The error type of the crate.

use vstd::prelude::*;

verus! {

/// What can go wrong in the store, the protocol and the network layer.
#[derive(Debug, Clone, Copy, PartialEq, Eq, Structural)]
pub enum KvError {
    /// A value could not be serialised or deserialised.
    Serde,
    /// An I/O operation failed.
    Io,
    /// The logger could not be installed.
    Logger,
    /// The sled engine reported an error.
    Sled,
    /// Bytes were not valid UTF-8.
    Utf8,
    /// A record could not be written or a key to remove was absent.
    Log,
    /// A file could not be opened or a file path could not be formed.
    File,
    /// A request on the network stream was malformed.
    Network,
    /// A lock could not be taken.
    Lock,
    /// A worker was asked to stop.
    Thread,
}

} // verus!
