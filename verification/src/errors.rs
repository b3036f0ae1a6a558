//! What went wrong in the file system.

use vstd::prelude::*;

verus! {

/// Why the file system did not do something.
#[derive(Debug, PartialEq, Eq)]
pub struct FsError {
    /// Whether there is nothing at the path.
    pub not_found: bool,
    pub message: String,
}

impl Clone for FsError {
    fn clone(&self) -> (r: Self)
        ensures
            r == *self,
    {
        FsError { not_found: self.not_found, message: self.message.clone() }
    }
}

/// What an [`FsError`] says.
pub struct FsErrorState {
    pub not_found: bool,
    pub message: Seq<char>,
}

impl View for FsError {
    type V = FsErrorState;

    open spec fn view(&self) -> FsErrorState {
        FsErrorState { not_found: self.not_found, message: self.message@ }
    }
}

} // verus!
