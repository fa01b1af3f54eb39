//! A verified core for a command-line lookup tool over structured game data.
//!
//! The heart of the crate is the type-effectiveness aggregator
//! ([`matchup::TypeMatchup`]): starting from a catalog of elemental types, it
//! applies damage relations (no damage, double damage, half damage) from one
//! or more attacking types and reports the compounded damage multiplier for
//! every defending type, grouped by multiplier and sorted for display.
//!
//! Multipliers start at 1 and are only ever doubled, halved, or forced to
//! zero, so every reachable value is either zero or a power of two. The
//! [`multiplier::Multiplier`] type represents them exactly that way, which
//! keeps the whole engine free of floating point while matching the rounding
//! the report applies when it groups values by hundredths.

pub mod arguments;
pub mod error;
pub mod matchup;
pub mod model;
pub mod multiplier;
pub mod order;
pub mod search;
pub mod text;

