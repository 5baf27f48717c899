//! A settlement engine for pooled funds held under a deadline.
//!
//! Two state machines share one pattern. A campaign collects donations
//! towards a goal and refunds them when the goal is missed. A contest
//! collects entry fees, ranks the players by score and pays the pool out by
//! rank. Neither moves funds itself: each operation decides whether a call is
//! permitted and how much goes to whom, and the host carries the transfer out.
//!
//! The host also proves who is calling and tells the time: each operation
//! takes the current time, and whether the caller is proven, as arguments.
//! A participant is known by a number that the host assigns.
//!
//! The state of a campaign or a contest is an object of its own that every
//! operation is handed. What holds of it between calls is written down once
//! (`valid`), and every operation is proven to keep it.

pub mod campaign;
pub mod competition;
pub mod error;
pub mod gate;
pub mod leaderboard;
pub mod ledger;
pub mod splitter;
pub mod transfer;
