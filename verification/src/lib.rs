//! Statistics for a library of rhythm-game beatmaps.
//!
//! The crate normalizes the note charts of a beatmap across its supported
//! schema versions, derives note-density metrics, assigns each beatmap a
//! content-addressed identity, and reconciles the computed records with a
//! player's historical score data.
//!
//! Beat positions and tempo values are fixed-point integers carrying one
//! thousandth of a beat (or of a beat-per-minute) per unit; exact quotients
//! such as durations and densities are carried as [`ratio::Ratio`] values.

use vstd::prelude::*;

pub mod density;
pub mod identity;
pub mod normalize;
pub mod order;
pub mod processor;
pub mod ratio;
pub mod reconcile;
pub mod records;
pub mod table;

verus! {

/// One thousandth of a beat (or of a beat-per-minute) per unit.
pub const FIXED_SCALE: u64 = 1000;

/// Upper bound on a beat position, so that window arithmetic cannot overflow.
pub const BEAT_LIMIT: u64 = 0x0400_0000_0000_0000;

/// Upper bound on a tempo value, so that density arithmetic cannot overflow.
pub const BPM_LIMIT: u64 = 0x0800_0000;

/// The failure taxonomy of the pipeline. Every kind is fatal to the run;
/// no per-beatmap isolation or partial recovery is attempted.
#[derive(Clone, Copy, Debug, PartialEq, Eq, Structural)]
pub enum StatsError {
    /// A manifest or difficulty file was absent or was not valid JSON.
    MissingOrMalformedFile,
    /// A difficulty file declared a schema version with an unrecognized prefix.
    UnsupportedSchema,
    /// The same (characteristic, difficulty) pair occurred twice in one beatmap.
    DuplicateDifficulty,
    /// A required key was absent from a parsed file, or had the wrong type.
    MissingRequiredField,
}

impl StatsError {
    /// A short description of the error kind, for the process's final message.
    pub fn describe(&self) -> (s: String)
        ensures
            s@ == self.describe_spec(),
    {
        match self {
            StatsError::MissingOrMalformedFile => String::from_str("missing or malformed file"),
            StatsError::UnsupportedSchema => String::from_str("unsupported schema version"),
            StatsError::DuplicateDifficulty => String::from_str("duplicate difficulty entry"),
            StatsError::MissingRequiredField => String::from_str("missing required field"),
        }
    }

    /// The text that `describe` returns for each kind.
    pub open spec fn describe_spec(&self) -> Seq<char> {
        match self {
            StatsError::MissingOrMalformedFile => "missing or malformed file"@,
            StatsError::UnsupportedSchema => "unsupported schema version"@,
            StatsError::DuplicateDifficulty => "duplicate difficulty entry"@,
            StatsError::MissingRequiredField => "missing required field"@,
        }
    }
}

} // verus!
