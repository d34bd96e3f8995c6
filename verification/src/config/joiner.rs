use vstd::prelude::*;

verus! {

/// Timing parameters of an intersection unit.
#[derive(Clone, Copy, Debug, PartialEq, Eq)]
pub struct IntersectConfig {
    /// A warm-up delay at the very start of the pipeline.
    pub startup_delay: u64,
    /// Pause after seeing a new value in a scanner; an unavoidable bubble.
    pub stop_latency: u64,
    /// Latency before emitting new values, pipelined against the next delay.
    pub output_latency: u64,
    /// Initiation interval of the output pipeline.
    pub sequential_interval: u64,
    /// Pipeline bubble when a row ends while reading from memory.
    pub val_stop_delay: u64,
    /// Pipeline bubble when advancing to a new value while reading from memory.
    pub val_advance_delay: u64,
}

impl Default for IntersectConfig {
    fn default() -> (r: Self)
        ensures
            r == (IntersectConfig {
                startup_delay: 0,
                stop_latency: 0,
                output_latency: 1,
                sequential_interval: 1,
                val_stop_delay: 0,
                val_advance_delay: 1,
            }),
    {
        IntersectConfig {
            startup_delay: 0,
            stop_latency: 0,
            output_latency: 1,
            sequential_interval: 1,
            val_stop_delay: 0,
            val_advance_delay: 1,
        }
    }
}

} // verus!
