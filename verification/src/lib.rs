//! A plurality-at-large tally engine.
//!
//! A contest names its choices and how many of them win. Each vote selects
//! choices by identifier. The engine resolves those identifiers against the
//! contest, sets aside the votes that break the contest's rules, adds up the
//! selections of the valid ones, ranks the choices by their totals and names
//! the winners, ties sharing a position.
//!
//! - [`voting`] holds the contest, the votes and the result, each with the
//!   mathematical view that the contracts speak of;
//! - [`counting`] decides which votes count and adds up their selections;
//! - [`ranking`] orders the counted choices and gives the winners their
//!   positions;
//! - [`tally`] resolves the votes as submitted and puts the result together;
//! - [`laws`] proves what holds of every result;
//! - [`data_generator`] makes up contests and votes to try the engine on;
//! - [`error`] names the reasons for which a tally fails.

pub mod counting;
pub mod data_generator;
pub mod error;
pub mod laws;
mod random;
pub mod ranking;
pub mod tally;
pub mod voting;
