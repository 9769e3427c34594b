//! The errors the library reports.
use vstd::prelude::*;

verus! {

/// Why an operation on a build, or a resolution of text, failed.
#[derive(Debug, Clone, Copy, PartialEq, Eq, Structural)]
pub enum PlanError {
    /// An attribute value outside 1..=11.
    OutOfRange,
    /// A perk rank above the perk's maximum, which is carried.
    RankOutOfRange { max: u8 },
    /// A definition or identity the catalog does not hold.
    UnknownPerk,
    /// No candidate was similar enough to the text.
    NoMatch,
    /// The attribute book cannot go to an attribute already at 10.
    InvalidTarget,
    /// A perk was asked for without any text.
    NoPerkGiven,
    /// A snapshot that does not describe a valid build.
    InvalidSnapshot,
}

} // verus!
