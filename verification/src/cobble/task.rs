//! The task definitions of the first project file format.
use vstd::prelude::*;

verus! {

/// What a task runs: a command line, or a function.
pub enum Action {
    Cmd(Vec<String>),
    Func(String),
}

/// Something a task depends on.
pub enum Dependency {
    File(String),
    Task(String),
}

/// A file that a task produces.
pub struct Artifact {
    filename: String,
}

impl Artifact {
    pub fn new(filename: String) -> (r: Artifact)
        ensures
            r.filename() == filename,
    {
        Artifact { filename }
    }

    pub closed spec fn filename(&self) -> String {
        self.filename
    }
}

/// A task: the build environment it runs in, its actions, its dependencies
/// and the files it produces.
pub struct Task {
    build_env_name: String,
    actions: Vec<Action>,
    dependencies: Vec<Dependency>,
    artifacts: Vec<Artifact>,
}

} // verus!
