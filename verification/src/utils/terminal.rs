//! What is told about a directory that cannot be entered.

use vstd::prelude::*;

verus! {

/// A path that leads to no directory.
pub struct BadPathError {
    path: String,
}

impl BadPathError {
    /// The path that led nowhere.
    pub closed spec fn path(&self) -> Seq<char> {
        self.path@
    }

    /// The error of the path `path`.
    pub fn new(path: &str) -> (error: Self)
        ensures
            error.path() == path@,
    {
        Self { path: String::from_str(path) }
    }

    /// What to tell the user.
    pub fn message(&self) -> (text: String)
        ensures
            text@ == "Could not find directory: "@ + self.path(),
    {
        let text = String::from_str("Could not find directory: ");
        text.concat(self.path.as_str())
    }
}

} // verus!
