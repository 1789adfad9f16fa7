//! The task model: one unit of remote work, in one of three shapes.

use vstd::prelude::*;

verus! {

/// A single remote shell command.
#[derive(Debug, Clone, PartialEq)]
pub struct Bash {
    pub command: String,
}

/// An ordered list of remote shell commands, run one after the other.
#[derive(Debug, Clone, PartialEq)]
pub struct BashScript {
    pub script: Vec<String>,
}

/// A file push: `source` is resolved against the owning scroll's directory,
/// `destination` is used verbatim on the remote host.
#[derive(Debug, Clone, PartialEq)]
pub struct FileSync {
    pub source: String,
    pub destination: String,
}

/// The three polymorphic task bodies.
#[derive(Debug, Clone, PartialEq)]
pub enum TaskExec {
    Bash(Bash),
    BashScript(BashScript),
    FileSync(FileSync),
}

/// One named unit of remote work.
#[derive(Debug, Clone, PartialEq)]
pub struct Task {
    pub name: String,
    pub task_exec: TaskExec,
}

/// A task tagged with its owning scroll's directory, so that a file push
/// can resolve its relative source path without a back-pointer.
#[derive(Debug, Clone, PartialEq)]
pub struct TaskContainer {
    pub scroll_dir_path: String,
    pub task: Task,
}

} // verus!
