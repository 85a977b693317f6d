use vstd::prelude::*;

verus! {

/// How many worker threads a pool gets when it is created. Zero means no
/// choice was made.
#[derive(Copy, Clone, Debug, PartialEq, Eq, Structural)]
pub struct ExecutorConfig {
    pub num_threads: usize,
}

/// The pool size used when neither a choice nor the machine's parallelism is known.
pub const DEFAULT_NUM_THREADS: usize = 4;

impl ExecutorConfig {
    /// No thread count chosen yet.
    pub fn new() -> (r: Self)
        ensures
            r.num_threads == 0,
    {
        ExecutorConfig { num_threads: 0 }
    }

    /// The size of a pool created now: the chosen count, else the machine's
    /// parallelism where it is known, else `DEFAULT_NUM_THREADS`.
    pub open spec fn spec_worker_count(self, available: Option<usize>) -> usize {
        if self.num_threads != 0 {
            self.num_threads
        } else {
            match available {
                Some(n) => n,
                None => DEFAULT_NUM_THREADS,
            }
        }
    }

    pub fn worker_count(&self, available: Option<usize>) -> (r: usize)
        requires
            available != Some(0usize),
        ensures
            r == self.spec_worker_count(available),
            r > 0,
    {
        if self.num_threads != 0 {
            self.num_threads
        } else {
            match available {
                Some(n) => n,
                None => DEFAULT_NUM_THREADS,
            }
        }
    }
}

/// Chooses the number of worker threads; it applies to a pool created afterwards.
pub fn set_num_threads(config: &mut ExecutorConfig, t: usize)
    ensures
        final(config).num_threads == t,
{
    config.num_threads = t;
}

} // verus!
