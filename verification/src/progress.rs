//! Progress reporting and output capture.

use crate::graph::{readable_written, BuildGraph, BuildId};
use vstd::prelude::*;

verus! {

/// A config for the progress reporter.
#[derive(Clone, Debug)]
pub struct ProgressConfig {
    /// The maximum number of threads that might be spawned, if known.
    pub max_threads: Option<usize>,
}

/// Status of the current progress.
#[derive(Clone, Copy, Debug)]
pub struct ProgressStatus {
    /// The total number of builds to run
    pub total: usize,
    /// The number of builds that have started, including those that are finished.
    pub started: usize,
    /// The number of builds finished, successfully, unsuccessfully or skipped.
    pub done: usize,
    /// The number of builds that explicitly failed, not counting skipped ones.
    pub failed: usize,
}

/// Reporting build progress and capturing output.
pub trait Progress {
    /// Prepare the reporter with the given configuration.
    fn prepare(&self, config: &ProgressConfig);

    /// A build starts.
    fn build_started(&self, graph: &BuildGraph, id: BuildId, status: &ProgressStatus);

    /// A build produced a chunk of standard output.
    fn stdout_line(&self, graph: &BuildGraph, id: BuildId, chunk: &[u8]);

    /// A build finished.
    fn build_finished(&self, graph: &BuildGraph, id: BuildId, success: bool, status: &ProgressStatus);

    /// The progress session has finished.
    fn finish(&self);
}

/// A reporter that reports nothing, for tests or where no report is wanted.
pub struct NoopProgress;

impl Progress for NoopProgress {
    fn prepare(&self, config: &ProgressConfig) {
    }

    fn build_started(&self, graph: &BuildGraph, id: BuildId, status: &ProgressStatus) {
    }

    fn stdout_line(&self, graph: &BuildGraph, id: BuildId, chunk: &[u8]) {
    }

    fn build_finished(&self, graph: &BuildGraph, id: BuildId, success: bool, status: &ProgressStatus) {
    }

    fn finish(&self) {
    }
}

/// The decimal digits of a number, in ASCII.
pub open spec fn decimal(n: nat) -> Seq<u8>
    decreases n,
{
    if n < 10 {
        seq![(48 + n) as u8]
    } else {
        decimal(n / 10) + seq![(48 + n % 10) as u8]
    }
}

/// Append the decimal digits of a number.
fn push_decimal(w: &mut Vec<u8>, n: usize)
    ensures
        final(w)@ == old(w)@ + decimal(n as nat),
    decreases n,
{
    if n < 10 {
        w.push(48u8 + n as u8);
    } else {
        push_decimal(w, n / 10);
        w.push(48u8 + (n % 10) as u8);
        proof {
            assert(old(w)@ + decimal((n / 10) as nat) + seq![(48 + n % 10) as u8] =~= old(w)@ + decimal(n as nat));
        }
    }
}

/// The line a plain console reporter prints when a build starts: its
/// number among those to run, in brackets, then its command.
pub open spec fn started_line(graph: BuildGraph, id: BuildId, status: ProgressStatus) -> Seq<u8> {
    seq![91u8] + decimal((status.started + 1) as nat) + seq![47u8] + decimal(status.total as nat) + seq![93u8, 32u8]
        + readable_written(graph.spec_nodes()[id.0 as int].command) + seq![10u8]
}

/// A reporter that prints, for each build that starts, a line with its
/// number and command, and passes its output through.
pub struct DumbConsoleProgress;

impl DumbConsoleProgress {
    /// The line to print when a build starts. Where a word of the command
    /// cannot be quoted, the command is written up to it.
    pub fn started_line(&self, graph: &BuildGraph, id: BuildId, status: &ProgressStatus) -> (line: Vec<u8>)
        requires
            id.0 < graph.spec_nodes().len(),
            status.started < usize::MAX,
        ensures
            line@ == started_line(*graph, id, *status),
    {
        let mut w: Vec<u8> = Vec::new();
        w.push(91u8);
        push_decimal(&mut w, status.started + 1);
        w.push(47u8);
        push_decimal(&mut w, status.total);
        w.push(93u8);
        w.push(32u8);
        let node = graph.lookup_build(id);
        match node {
            Some(n) => {
                let _ = n.command.write_human_readable(&mut w);
            },
            None => {},
        }
        w.push(10u8);
        proof {
            assert(w@ =~= started_line(*graph, id, *status));
        }
        w
    }
}

} // verus!
