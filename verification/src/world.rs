//! How the executor sees the world outside.

use crate::db::Timestamp;
use crate::exec::BuildStatusKind;
use crate::graph::BuildMethod;
use vstd::prelude::*;

verus! {

/// An error reported by the world, such as a file whose metadata cannot be
/// read or a command that cannot be spawned.
#[derive(Debug, Clone)]
pub struct WorldError {
    pub message: String,
}

/// A trait that abstracts over how the executor interacts with the outside
/// world.
///
/// All file and execution operations in the executor are directed through
/// this trait. Implement it to customize the view of the world as seen by
/// the executor: a mock world can be used to test the executor, or a remote
/// world can execute commands on a different machine.
///
/// The answers depend on the state of the world when asked, so the library
/// assumes nothing of them: whatever they are, the executor's decisions are
/// the ones its functions state for those answers.
///
/// For the database the executor uses, see [`crate::db`].
pub trait World {
    /// Test whether a file exists.
    fn file_exists(&self, path: &str) -> bool;

    /// Get the modification time of a file.
    fn mtime(&self, path: &str) -> Result<Timestamp, WorldError>;

    /// Get the current time. Implementations may return a mocked monotonic
    /// time.
    fn now(&self) -> Timestamp;

    /// Run a build step.
    fn execute(&self, cmd: &BuildMethod) -> Result<BuildStatusKind, WorldError>;
}

} // verus!
