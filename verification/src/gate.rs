//! The deadline gate: whether contributions are still open at a given time.

use vstd::prelude::*;

verus! {

/// A session that accepts entries and scores and has not been settled.
pub const STATUS_ACTIVE: u32 = 1;

/// A session whose pool has been paid out. It never becomes active again.
pub const STATUS_CLAIMED: u32 = 3;

/// Whether the window for contributions is open or has closed.
#[derive(Clone, Copy, Debug, PartialEq, Eq, Structural)]
pub enum Gate {
    Open,
    Closed,
}

/// The window is open up to and including the deadline itself.
pub open spec fn window(now: u64, deadline: u64) -> Gate {
    if now <= deadline {
        Gate::Open
    } else {
        Gate::Closed
    }
}

/// Whether a session with this status can still be entered and settled:
/// an active one can, at any time; a claimed one never again.
pub open spec fn settlement_allowed(status: u32) -> bool {
    status == STATUS_ACTIVE
}

/// The deadline gate. Time alone decides it; `status` is a separate axis
/// and does not move the window.
pub fn gate(now: u64, deadline: u64, status: u32) -> (g: Gate)
    ensures
        g == window(now, deadline),
{
    if now <= deadline {
        Gate::Open
    } else {
        Gate::Closed
    }
}

pub fn may_settle(status: u32) -> (r: bool)
    ensures
        r == settlement_allowed(status),
{
    status == STATUS_ACTIVE
}

} // verus!
