//! The errors of planning and sizing.

use vstd::prelude::*;

verus! {

/// Why a chain, an allocation or a sizing could not be carried out.
#[derive(Debug, PartialEq, Eq)]
pub enum PlanError {
    /// A line of a chain that matches no directive, or holds a malformed number.
    Parse { line: String },
    /// A recipe name that resolves to no recipe of the catalog.
    UnknownRecipe { query: String },
    /// A material name that resolves to no known material.
    UnknownIngredient { query: String },
    /// A material name that resolves to none of a recipe's inputs.
    NotARecipeInput { query: String, recipe: String },
    /// The recipe's input of the material to allocate has a quantity of zero.
    ZeroRecipeInput { part: String, recipe: String },
    /// The material to allocate has no entry in the current balance.
    NotInBalance { part: String },
    /// The material to allocate has a balance of zero or less.
    NonPositiveBalance { part: String },
    /// A directive other than `group` came before any `group`.
    NoCurrentGroup,
    /// No preferred machine multiple is configured for this building.
    UnknownBuilding { building: String },
    /// No base power draw is known for this building.
    NoBasePower { building: String },
    /// A clock speed outside the open interval (0, 2.5).
    ClockOutOfRange,
    /// A recipe with nothing to carry on a belt or a pipe.
    NothingToTransport,
    /// A catalog record with too few fields or a malformed number.
    BadRecord { fields: Vec<String> },
    /// The catalog text is not well-formed comma-separated values.
    BadCatalog,
    /// The catalog lacks the recipe, or the slot, that a correction targets.
    MissingPatchTarget { recipe: String },
    /// A quantity whose exact value no longer fits a `Rate`.
    Overflow,
}

} // verus!
