//! Consensus kernel of a lockout-tower simulator: validator towers, the
//! forest of banks they vote on, and the rule by which a validator decides
//! whether it may vote for the heaviest fork.

pub mod bank;
pub mod banks;
mod collect;
pub mod count;
pub mod forest;
pub mod node;
pub mod stake;
pub mod subcommittee;
pub mod tower;
pub mod weights;
