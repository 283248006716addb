use vstd::prelude::*;

verus! {

/// Hardware execution backend selector.
#[derive(Debug, Clone, Copy, PartialEq, Eq, Structural)]
pub enum Backend {
    /// Pure CPU execution backend.
    Cpu,
}

impl Default for Backend {
    fn default() -> (b: Self)
        ensures
            b == Backend::Cpu,
    {
        Backend::Cpu
    }
}

/// Default number of worker threads for inference.
pub const DEFAULT_THREADS: usize = 4;

/// The thread count a requested one becomes: at least one worker.
pub fn effective_threads(threads: usize) -> (n: usize)
    ensures
        n == if threads >= 1 { threads } else { 1 },
        n >= 1,
{
    if threads >= 1 {
        threads
    } else {
        1
    }
}

} // verus!
