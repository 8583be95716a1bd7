//! The interface of the worker pools that run the server's and the
//! client's jobs.

use crate::Result;
use vstd::prelude::*;

verus! {

/// A pool of threads that runs jobs.
pub trait ThreadPool {
    /// A pool with `threads` workers.
    fn new(threads: u32) -> Result<Self> where Self: Sized;

    /// Hands a job to the pool.
    fn spawn<F>(&self, job: F) where F: FnOnce() + Send + 'static;

    /// Waits for the workers to finish. A pool without workers of its own
    /// has nothing to wait for: it succeeds.
    fn join(&mut self) -> (r: Result<()>)
        default_ensures
            r == Ok::<(), crate::error::KvError>(()),
    {
        Ok(())
    }

    /// Asks the workers to stop.
    fn shutdown(&self) {
    }
}

} // verus!
