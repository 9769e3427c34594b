//! Character build planning: attributes, perks and the statistics derived from them.
//!
//! - `special`: attributes, perk identities, rank structures and effects.
//! - `catalog`: every perk identity with its definition, built once.
//! - `character`: a build and the operations that change it, keeping its invariant.
//! - `stats`: the integer statistics derived from a build, and the effect folds.
//! - `snapshot`: a build as plain stored data, and back.
//! - `text`: user text to attributes, genders, difficulties and perks.
//! - `laws`: properties stated over the other modules.
pub mod special;
pub mod catalog;
pub mod error;
pub mod character;
pub mod stats;
pub mod snapshot;
pub mod text;
pub mod laws;
