//! Accounting core of a delegated-staking collator set.
//!
//! Accounts stake funds to become collator candidates, or delegate funds
//! to candidates they trust. Every change of stake is recorded as an
//! overlay lock on the account, and once per round the best-backed
//! candidates are selected to author blocks.

use vstd::prelude::*;

pub mod arithmetic;
pub mod candidates;
pub mod conviction;
pub mod delegations;
pub mod error;
pub mod invariants;
pub mod ledger;
pub mod lock;
pub mod pallet;
pub mod round;
pub mod state;

verus! {

/// Identifier of an account. Accounts are ordered by their identifier.
pub type AccountId = u64;

/// Amount of funds.
pub type Balance = u128;

/// Height of a block.
pub type BlockNumber = u64;

/// Index of a round.
pub type RoundIndex = u32;

} // verus!
