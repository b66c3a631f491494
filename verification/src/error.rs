//! Reasons for which an operation is rejected.

use vstd::prelude::*;

verus! {

/// Why an operation was rejected. A rejected operation changes nothing.
#[derive(Copy, Clone, Debug, PartialEq, Eq, Structural)]
pub enum Error {
    /// No value has been stored yet.
    NoneValue,
    /// The stored value cannot be incremented any further.
    StorageOverflow,
    /// The byte is not the code of any conviction.
    InvalidConviction,
    /// No lock of the account has reached its unlock height.
    NothingToUnlock,
    /// The account is a candidate already.
    CandidateExists,
    /// The candidate's own stake would be below the minimum.
    InsufficientStake,
    /// The candidate's own stake would be above the maximum.
    StakeTooHigh,
    /// The account is not a candidate, or is one that is leaving already.
    NotCandidate,
    /// The candidate has not asked to leave.
    NotLeaving,
    /// The round in which the candidate may leave has not begun.
    ExitNotMatured,
    /// The account delegated to is not a candidate.
    CandidateNotFound,
    /// The delegated amount is below the minimum.
    InsufficientDelegatorStake,
    /// The delegator backs the maximum number of candidates already.
    TooManyDelegations,
    /// The delegator backs this candidate already.
    DelegationExists,
    /// The account backs no candidate.
    DelegatorNotFound,
    /// The delegator does not back this candidate.
    DelegationNotFound,
    /// The delegation would fall below the minimum.
    StakeBelowMinimum,
    /// An amount, a block height or a round left the range of its type.
    ArithmeticOverflow,
    /// A parameter is outside its sane bounds.
    InvalidParameter,
}

} // verus!
