//! The command line of the build tool.

use vstd::prelude::*;

verus! {

/// The command line.
#[derive(Debug)]
pub struct Args {
    pub subcommand: Subcommand,
}

/// What the tool is asked to do.
#[derive(Debug)]
pub enum Subcommand {
    /// Build from a Ninja build file.
    Ninja(Box<NinjaSubcommand>),
}

/// Building from a Ninja build file.
#[derive(Debug)]
pub struct NinjaSubcommand {
    /// The targets to build
    pub targets: Vec<String>,
    /// The directory to change to before doing anything else
    pub chdir: Option<String>,
    /// Show all command lines while building
    pub verbose: bool,
    /// Don't show progress status, just command output
    pub quiet: bool,
    /// The number of jobs to run in parallel
    pub jobs: Option<usize>,
    /// Act as if the commands succeeded without running them
    pub dry_run: bool,
}

impl NinjaSubcommand {
    /// The number of jobs to run in parallel: the number asked for where it
    /// is above zero, else the parallelism the machine has.
    pub fn parallelism(&self, available: usize) -> (n: usize)
        ensures
            n == match self.jobs {
                Some(j) => if j > 0 {
                    j
                } else {
                    available
                },
                None => available,
            },
    {
        match self.jobs {
            Some(j) => if j > 0 {
                j
            } else {
                available
            },
            None => available,
        }
    }
}

} // verus!
