//! Worker configuration: poll timeout, event batch size and thread count.

use vstd::prelude::*;

verus! {

/// Default worker poll timeout, in microseconds.
pub const WORKER_TIMEOUT: u64 = 100;
/// Default maximum number of events per poll batch.
pub const WORKER_NEVENT: usize = 1024;
/// Default number of worker threads.
pub const WORKER_THREADS: usize = 1;

/// The default worker poll timeout (microseconds).
pub fn timeout() -> (r: u64)
    ensures
        r == WORKER_TIMEOUT,
{
    WORKER_TIMEOUT
}

/// The default maximum number of events per poll batch.
pub fn nevent() -> (r: usize)
    ensures
        r == WORKER_NEVENT,
{
    WORKER_NEVENT
}

/// The default number of worker threads.
pub fn threads() -> (r: usize)
    ensures
        r == WORKER_THREADS,
{
    WORKER_THREADS
}

/// Worker settings.
#[derive(Clone, Copy, PartialEq, Eq, Structural, Debug)]
pub struct Worker {
    /// Poll timeout in microseconds.
    pub timeout: u64,
    /// Maximum events per poll batch.
    pub nevent: usize,
    /// Number of worker threads.
    pub threads: usize,
}

impl Worker {
    /// Timeout to use for the readiness poll, in microseconds.
    pub fn timeout(&self) -> (r: u64)
        ensures
            r == self.timeout,
    {
        self.timeout
    }

    /// Maximum events per poll batch.
    pub fn nevent(&self) -> (r: usize)
        ensures
            r == self.nevent,
    {
        self.nevent
    }

    /// Number of worker threads.
    pub fn threads(&self) -> (r: usize)
        ensures
            r == self.threads,
    {
        self.threads
    }

    /// Set the number of worker threads.
    pub fn set_threads(&mut self, threads: usize)
        ensures
            *final(self) == (Worker { threads, ..*old(self) }),
    {
        self.threads = threads;
    }
}

impl Default for Worker {
    /// The default worker settings.
    fn default() -> (r: Self)
        ensures
            r == (Worker {
                timeout: WORKER_TIMEOUT,
                nevent: WORKER_NEVENT,
                threads: WORKER_THREADS,
            }),
    {
        Worker { timeout: WORKER_TIMEOUT, nevent: WORKER_NEVENT, threads: WORKER_THREADS }
    }
}

} // verus!
