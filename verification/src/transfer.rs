//! The movements of funds that the operations decide on.

use vstd::prelude::*;

verus! {

/// One side of a movement of funds.
#[derive(Clone, Copy, Debug, PartialEq, Eq, Structural)]
pub enum Party {
    /// The funds the engine itself holds until they are settled.
    Custody,
    /// A participant, by identity.
    Participant(u64),
}

/// A movement of funds that an operation has decided on. The engine moves
/// nothing itself: the host carries the transfer out, and keeps the new
/// state only if the transfer went through.
#[derive(Clone, Copy, Debug, PartialEq, Eq, Structural)]
pub struct Transfer {
    pub from: Party,
    pub to: Party,
    pub amount: i128,
}

/// `amount` from a participant into custody.
pub open spec fn deposit(from: u64, amount: i128) -> Transfer {
    Transfer { from: Party::Participant(from), to: Party::Custody, amount }
}

/// `amount` out of custody to a participant.
pub open spec fn payout(to: u64, amount: i128) -> Transfer {
    Transfer { from: Party::Custody, to: Party::Participant(to), amount }
}

} // verus!
