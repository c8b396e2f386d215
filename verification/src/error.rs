//! Why a tally can fail.

use vstd::prelude::*;

verus! {

/// The reasons for which the engine refuses to produce a result. Each ends
/// the run: there is no partial tally.
#[derive(Debug, Clone, Copy, PartialEq, Eq, Structural)]
pub enum TallyError {
    /// The contest is not plurality at large, or `num_winners`, `min_choices`
    /// and `max_choices` are not one and the same number.
    Configuration,
    /// A vote names a choice that the contest does not have.
    Reference { choice_id: i64 },
    /// A total does not fit the integer that has to hold it.
    CountOverflow,
    /// No vote is valid, so there is nothing to rank.
    EmptyResult,
}

impl TallyError {
    /// A line that says what went wrong.
    pub fn message(&self) -> (text: String)
        ensures
            text@ == self.message_text(),
    {
        match self {
            TallyError::Configuration => {
                "the contest is not a plurality-at-large contest with one district magnitude".to_owned()
            },
            TallyError::Reference { .. } => {
                "a vote refers to a choice that the contest does not have".to_owned()
            },
            TallyError::CountOverflow => "a total is too large to be represented".to_owned(),
            TallyError::EmptyResult => "there is no valid vote".to_owned(),
        }
    }

    /// The text of [`TallyError::message`].
    pub open spec fn message_text(self) -> Seq<char> {
        match self {
            TallyError::Configuration => {
                "the contest is not a plurality-at-large contest with one district magnitude"@
            },
            TallyError::Reference { .. } => {
                "a vote refers to a choice that the contest does not have"@
            },
            TallyError::CountOverflow => "a total is too large to be represented"@,
            TallyError::EmptyResult => "there is no valid vote"@,
        }
    }
}

} // verus!
