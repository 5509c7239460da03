//! Files that tasks produce.
use vstd::prelude::*;

verus! {

/// A file that a task produces.
#[derive(Debug)]
pub struct Artifact {
    pub filename: String,
}

impl Artifact {
    /// The text of the artifact: its file name.
    pub fn text(&self) -> (r: String)
        ensures
            r@ == self.filename@,
    {
        self.filename.clone()
    }
}

} // verus!
