//! The command-line arguments, as plain values.
//!
//! The surrounding binary parses the actual command line and converts the
//! result into these types; the library only consumes them.

use vstd::prelude::*;

verus! {

/// What kind of record to look up.
#[derive(Clone, Copy, Debug, PartialEq, Eq, Structural)]
pub enum SearchKind {
    /// Look up a species and report its type matchups.
    Pokemon,
    /// Look up an ability.
    Ability,
    /// Look up a move.
    Move,
    /// Look up an item.
    Item,
    /// Look up one or more elemental types (comma-separated) and report the
    /// combined type matchups.
    Type,
}

/// One invocation's arguments.
#[derive(Clone, Debug, PartialEq, Eq)]
pub struct Arguments {
    /// The search type.
    pub kind: SearchKind,
    /// The search text.
    pub text: String,
    /// The cache directory.
    pub cache_dir: String,
}

} // verus!
