use vstd::prelude::*;

verus! {

/// What the engine needs to know of the machine.
#[derive(Debug, Clone, Copy, PartialEq, Eq, Structural)]
pub struct SystemInfo {
    /// Total memory in bytes.
    pub total_memory: u64,
    /// Number of processor cores.
    pub cpu_count: usize,
}

} // verus!
