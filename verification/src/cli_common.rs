use vstd::prelude::*;

verus! {

/// Options of the simulation engine.
#[derive(Clone, Copy, Debug, PartialEq, Eq)]
pub struct DamOptions {
    /// Run flavor inference.
    pub inference: bool,
    /// Number of worker threads.
    pub workers: Option<usize>,
}

/// How the engine schedules the simulation's contexts.
#[derive(Clone, Copy, Debug, PartialEq, Eq)]
pub enum RunMode {
    /// The engine's default scheduling.
    Default,
    /// At most this many worker threads.
    Constrained(usize),
}

impl DamOptions {
    /// Whether the engine infers run flavors when the program is initialized.
    pub fn run_flavor_inference(&self) -> (r: bool)
        ensures
            r == self.inference,
    {
        self.inference
    }

    /// The scheduling asked for: constrained to the given number of workers,
    /// or the engine's default when none is given.
    pub fn run_mode(&self) -> (r: RunMode)
        ensures
            r == match self.workers {
                Some(n) => RunMode::Constrained(n),
                None => RunMode::Default,
            },
    {
        match self.workers {
            Some(num) => RunMode::Constrained(num),
            None => RunMode::Default,
        }
    }
}

/// Files holding the simulator's configuration.
#[derive(Clone, Debug, PartialEq, Eq)]
pub struct SamOptionFiles {
    /// A TOML file with the compressed-read timing configuration.
    pub compressed_read_config: Option<String>,
}

impl Default for SamOptionFiles {
    fn default() -> (r: Self)
        ensures
            r.compressed_read_config is None,
    {
        SamOptionFiles { compressed_read_config: None }
    }
}

} // verus!
