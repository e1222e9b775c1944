//! Instant-runoff (ranked-choice) election tabulation.
//!
//! Raw ballot rows are parsed into voters ([`ballot`]), a rectangular data
//! block is located by spreadsheet-style cell references ([`grid`]), and the
//! round-by-round elimination loop runs until one choice holds a strict
//! majority of all counted ballots ([`engine`]).

use vstd::prelude::*;

pub mod ballot;
pub mod engine;
pub mod grid;

verus! {

/// The failure conditions of a tabulation run.  Each variant carries the
/// offending raw input where there is one.
#[derive(Debug, Clone)]
pub enum ElectionError {
    /// A cell reference had a column letter outside the fixed alphabet or an
    /// unusable row number.
    InvalidCellReference(String),
    /// A raw ballot field contained no decimal digit, so no choice identifier
    /// could be derived from it.
    MalformedBallotField(String),
    /// Every voter's ballot was exhausted before any round found a majority,
    /// leaving a round with an empty tally: a fatal condition with no
    /// recovery path.  Carries the rounds completed before the failure.
    ExhaustedElectorate(Vec<crate::engine::Round>),
}

} // verus!
