//! Production-chain planning for a factory-building game: an exact ledger of
//! material flow per planning group, a small line-oriented language that
//! allocates recipes against it, and the sizing of a recipe's blueprint.
//!
//! Every quantity (items per minute, scale factors, clock speeds) is an exact
//! rational number, so that balances, allocations and machine counts hold
//! exactly what their contracts state. An operation whose exact result no
//! longer fits the rational type reports `PlanError::Overflow`.
//!
//! - `rate`: exact rationals and their algebra.
//! - `ingredient`: materials with a signed flow; negation, scaling, merging.
//! - `recipe`: catalog recipes and their input and output views.
//! - `ledger`: planning groups and their balance.
//! - `chain`: the state of a chain of groups and the allocation of recipes.
//! - `dsl`: the chain language, its parsing and its execution.
//! - `blueprint`: machine count, clock and power for one recipe.
//! - `lookup`: resolving names typed by a user against the catalog.
//! - `import`: reading the catalog from comma-separated records.
//! - `text`: words, joins and decimal numerals.
//! - `error`: the errors of planning and sizing.

pub mod blueprint;
pub mod chain;
pub mod dsl;
pub mod error;
pub mod import;
pub mod ingredient;
pub mod ledger;
pub mod lookup;
pub mod rate;
pub mod recipe;
pub mod text;
