//! Plain-value models of the data the aggregator works on.
//!
//! The surrounding glue fetches elemental types from the game-data API and
//! hands them to the library as these types: an elemental type is identified
//! by a stable small integer and carries its localized names; a type's
//! damage relations are three lists of the identifiers of other types.

use vstd::prelude::*;

verus! {

/// One localized name of an elemental type: a language tag (such as "en")
/// and the display name in that language.
#[derive(Clone, Debug, PartialEq, Eq)]
pub struct LocalizedName {
    /// The language tag of this entry.
    pub language: String,
    /// The display name in that language.
    pub name: String,
}

/// An elemental type as fetched from the catalog: its stable identifier and
/// its localized names.
#[derive(Clone, Debug, PartialEq, Eq)]
pub struct TypeRecord {
    /// The stable identifier of the type.
    pub id: i64,
    /// The localized names of the type.
    pub names: Vec<LocalizedName>,
}

/// The damage relations contributed by one attacking type, as lists of the
/// identifiers of the defending types affected. The three lists are applied
/// in this fixed order: no damage first, then double damage, then half
/// damage.
#[derive(Clone, Debug, PartialEq, Eq)]
pub struct DamageRelations {
    /// Types that take no damage: their multiplier is forced to zero.
    pub no_damage_from: Vec<i64>,
    /// Types that take double damage: their multiplier is doubled.
    pub double_damage_from: Vec<i64>,
    /// Types that take half damage: their multiplier is halved.
    pub half_damage_from: Vec<i64>,
}

} // verus!
