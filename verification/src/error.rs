//! The error the library's own operations can produce.
//!
//! Failures of the surrounding collaborators (fetching a type over the
//! network, writing the report) are theirs to report; the library itself can
//! only fail to select a value from an empty candidate list.

use vstd::prelude::*;

verus! {

/// An error from the library's own logic.
#[derive(Clone, Copy, Debug, PartialEq, Eq, Structural)]
pub enum MatchupError {
    /// A list of candidates was empty, so no value could be selected.
    NoSuitableValue,
}

impl MatchupError {
    /// A short description of the error, suitable for display.
    pub fn message(&self) -> (r: &'static str)
        ensures
            r@ == "unable to find a suitable value"@,
    {
        "unable to find a suitable value"
    }
}

} // verus!
