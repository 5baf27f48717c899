//! The reasons for which a call is refused.

use vstd::prelude::*;

verus! {

/// Why a call was refused. A refused call leaves the state as it was.
#[derive(Clone, Copy, Debug, PartialEq, Eq, Structural)]
pub enum Error {
    /// The caller is not proven to hold the role the call needs.
    Unauthorized,
    AlreadyInitialized,
    NotInitialized,
    /// A donation or credit that is not positive.
    InvalidAmount,
    /// An entry fee that is not positive.
    InvalidFee,
    /// A deadline that does not lie in the future.
    InvalidDeadline,
    /// A donation after the campaign's deadline.
    CampaignEnded,
    /// An entry or a score after the contest's deadline.
    CompetitionEnded,
    /// A refund while donations are still open.
    CampaignNotEnded,
    /// A refund although the goal was met.
    GoalReached,
    /// A refund for a donor whose balance is zero.
    NoDonationFound,
    /// A debit of a balance that is already zero.
    NothingToSettle,
    CompetitionAlreadyActive,
    CompetitionNotActive,
    /// A second entry fee before the score for the first was submitted.
    AlreadyPaid,
    /// A score without an entry fee paid for it.
    PaymentRequired,
}

impl Error {
    /// The text a host shows when it aborts a call with this error.
    pub open spec fn text(self) -> Seq<char> {
        match self {
            Error::Unauthorized => "Caller is not authorized"@,
            Error::AlreadyInitialized => "Already initialized"@,
            Error::NotInitialized => "Not initialized"@,
            Error::InvalidAmount => "Donation amount must be positive"@,
            Error::InvalidFee => "Entry fee must be positive"@,
            Error::InvalidDeadline => "Deadline must be in the future"@,
            Error::CampaignEnded => "Campaign has ended"@,
            Error::CompetitionEnded => "Competition has ended"@,
            Error::CampaignNotEnded => "Campaign belum berakhir"@,
            Error::GoalReached => "Goal sudah tercapai, tidak bisa refund"@,
            Error::NoDonationFound => "No donations found for this address"@,
            Error::NothingToSettle => "Nothing to settle"@,
            Error::CompetitionAlreadyActive => "Competition already active"@,
            Error::CompetitionNotActive => "Competition not active"@,
            Error::AlreadyPaid => "Player has already paid for a game; submit score first"@,
            Error::PaymentRequired => "Player must pay entry fee before submitting score"@,
        }
    }

    pub fn message(&self) -> (s: &'static str)
        ensures
            s@ == self.text(),
    {
        match self {
            Error::Unauthorized => "Caller is not authorized",
            Error::AlreadyInitialized => "Already initialized",
            Error::NotInitialized => "Not initialized",
            Error::InvalidAmount => "Donation amount must be positive",
            Error::InvalidFee => "Entry fee must be positive",
            Error::InvalidDeadline => "Deadline must be in the future",
            Error::CampaignEnded => "Campaign has ended",
            Error::CompetitionEnded => "Competition has ended",
            Error::CampaignNotEnded => "Campaign belum berakhir",
            Error::GoalReached => "Goal sudah tercapai, tidak bisa refund",
            Error::NoDonationFound => "No donations found for this address",
            Error::NothingToSettle => "Nothing to settle",
            Error::CompetitionAlreadyActive => "Competition already active",
            Error::CompetitionNotActive => "Competition not active",
            Error::AlreadyPaid => "Player has already paid for a game; submit score first",
            Error::PaymentRequired => "Player must pay entry fee before submitting score",
        }
    }
}

} // verus!
