//! The state of the staking system and what each operation makes of it.
//!
//! The operations are stated here as functions from a state to the next
//! state, or to the reason for which the operation is rejected. A rejected
//! operation leaves the state as it is.

use vstd::prelude::*;
use crate::candidates::{
    candidate_of, ids_unique, is_candidate, position, CandidateState, CandidateStatus,
};
use crate::delegations::{
    delegated_by, delegated_to, delegation_count, edges_beside, edges_of, edges_past, edges_to,
    has_delegation, is_edge, pairs_unique, total, Delegation,
};
use crate::error::Error;
use crate::ledger::{locks_in, locks_wf, unlock_height, with_lock, with_release, Locks};
use crate::lock::{has_due, Lock};
use crate::{AccountId, Balance, BlockNumber, RoundIndex};

verus! {

/// The parameters of the staking system.
#[derive(Copy, Clone, Debug, PartialEq, Eq, Structural)]
pub struct Config {
    /// The least that a candidate may stake itself.
    pub min_candidate_stake: Balance,
    /// The most that a candidate may stake itself.
    pub max_collator_candidate_stake: Balance,
    /// The least that a delegator may delegate to one candidate.
    pub min_delegator_stake: Balance,
    /// The greatest number of candidates that one delegator may back.
    pub max_delegations_per_delegator: u32,
    /// The number of lock periods for which withdrawn stake stays frozen.
    pub stake_duration: u32,
    /// The number of blocks in one lock period.
    pub period_length: BlockNumber,
    /// The number of rounds between a candidate's request to leave and the
    /// round from which it may do so.
    pub exit_queue_delay: RoundIndex,
}

/// The state of the staking system.
pub struct StakingState {
    /// The candidate table.
    pub candidates: Seq<CandidateState>,
    /// The delegation table.
    pub delegations: Seq<Delegation>,
    /// The locks of every account.
    pub locks: Locks,
}

/// Where in the table the edge from `delegator` to `candidate` stands.
pub open spec fn edge_position(ds: Seq<Delegation>, delegator: AccountId, candidate: AccountId) -> int {
    choose|i: int| 0 <= i < ds.len() && is_edge(#[trigger] ds[i], delegator, candidate)
}

/// What an edge adds to what `delegator` has delegated to `candidate`.
pub open spec fn linking(delegator: AccountId, candidate: AccountId) -> spec_fn(Delegation) -> int {
    |e: Delegation|
        if is_edge(e, delegator, candidate) {
            e.amount as int
        } else {
            0
        }
}

/// What `delegator` has delegated to `candidate`.
pub open spec fn delegated_between(ds: Seq<Delegation>, delegator: AccountId, candidate: AccountId) -> int {
    total(ds, linking(delegator, candidate))
}

/// The state holds together:
/// no account is a candidate twice, and none recorded has left;
/// no delegator backs a candidate twice, and whoever is backed is a
/// candidate;
/// the total stake of every candidate is its own stake and the sum of all
/// that is delegated to it;
/// no delegator backs more candidates than allowed, and what each has
/// delegated in all is an amount;
/// and the locks of every account form a schedule.
pub open spec fn state_wf(s: StakingState, c: Config) -> bool {
    &&& ids_unique(s.candidates)
    &&& forall|i: int|
        0 <= i < s.candidates.len() ==> (#[trigger] s.candidates[i]).status
            != CandidateStatus::Left
    &&& pairs_unique(s.delegations)
    &&& forall|k: int|
        0 <= k < s.delegations.len() ==> is_candidate(
            s.candidates,
            (#[trigger] s.delegations[k]).candidate,
        )
    &&& forall|i: int|
        0 <= i < s.candidates.len() ==> (#[trigger] s.candidates[i]).total_stake
            == s.candidates[i].self_stake + delegated_to(s.delegations, s.candidates[i].id)
    &&& forall|d: AccountId| #[trigger]
        delegation_count(s.delegations, d) <= c.max_delegations_per_delegator
    &&& forall|d: AccountId| #[trigger] delegated_by(s.delegations, d) <= Balance::MAX
    &&& locks_wf(s.locks)
}

/// The block at which a lock on withdrawn stake ends that is placed at
/// block `now`.
pub open spec fn lock_end(c: Config, now: BlockNumber) -> int {
    unlock_height(now, c.stake_duration, c.period_length)
}

/// Which rule on a candidate's own stake the amount breaks, if any.
pub open spec fn candidate_stake_error(c: Config, amount: int) -> Option<Error> {
    if amount < c.min_candidate_stake {
        Some(Error::InsufficientStake)
    } else if amount > c.max_collator_candidate_stake {
        Some(Error::StakeTooHigh)
    } else {
        None
    }
}

/// The candidate with its own stake, and so its total stake, changed by
/// `change`.
pub open spec fn with_self_stake(cand: CandidateState, change: int) -> CandidateState {
    CandidateState {
        self_stake: (cand.self_stake + change) as Balance,
        total_stake: (cand.total_stake + change) as Balance,
        ..cand
    }
}

/// The candidate with what is delegated to it, and so its total stake,
/// changed by `change`.
pub open spec fn with_backing(cand: CandidateState, change: int) -> CandidateState {
    CandidateState { total_stake: (cand.total_stake + change) as Balance, ..cand }
}

/// The edge with its amount changed by `change`.
pub open spec fn with_amount(e: Delegation, change: int) -> Delegation {
    Delegation { amount: (e.amount + change) as Balance, ..e }
}

/// An account joins the candidates with `amount` as its own stake. The
/// stake is locked from block `now` on, for no period.
pub open spec fn join_candidates_spec(
    s: StakingState,
    c: Config,
    id: AccountId,
    amount: Balance,
    now: BlockNumber,
) -> Result<StakingState, Error> {
    if is_candidate(s.candidates, id) {
        Err(Error::CandidateExists)
    } else if candidate_stake_error(c, amount as int) is Some {
        Err(candidate_stake_error(c, amount as int).unwrap())
    } else {
        Ok(
            StakingState {
                candidates: s.candidates.push(
                    CandidateState {
                        id,
                        self_stake: amount,
                        total_stake: amount,
                        status: CandidateStatus::Active,
                    },
                ),
                locks: with_lock(s.locks, id, Lock { amount, unlock_at: now }),
                ..s
            },
        )
    }
}

/// A candidate adds `delta` to its own stake. What is added is locked from
/// block `now` on, for no period.
pub open spec fn candidate_stake_more_spec(
    s: StakingState,
    c: Config,
    id: AccountId,
    delta: Balance,
    now: BlockNumber,
) -> Result<StakingState, Error> {
    let at = position(s.candidates, id);
    let cand = s.candidates[at];
    if !is_candidate(s.candidates, id) {
        Err(Error::NotCandidate)
    } else if cand.total_stake + delta > Balance::MAX {
        Err(Error::ArithmeticOverflow)
    } else if candidate_stake_error(c, cand.self_stake + delta) is Some {
        Err(candidate_stake_error(c, cand.self_stake + delta).unwrap())
    } else {
        Ok(
            StakingState {
                candidates: s.candidates.update(at, with_self_stake(cand, delta as int)),
                locks: with_lock(s.locks, id, Lock { amount: delta, unlock_at: now }),
                ..s
            },
        )
    }
}

/// A candidate withdraws `delta` from its own stake. What is withdrawn
/// stays locked for the stake duration.
pub open spec fn candidate_stake_less_spec(
    s: StakingState,
    c: Config,
    id: AccountId,
    delta: Balance,
    now: BlockNumber,
) -> Result<StakingState, Error> {
    let at = position(s.candidates, id);
    let cand = s.candidates[at];
    if !is_candidate(s.candidates, id) {
        Err(Error::NotCandidate)
    } else if delta > cand.self_stake {
        Err(Error::ArithmeticOverflow)
    } else if candidate_stake_error(c, cand.self_stake - delta) is Some {
        Err(candidate_stake_error(c, cand.self_stake - delta).unwrap())
    } else if lock_end(c, now) > BlockNumber::MAX {
        Err(Error::ArithmeticOverflow)
    } else {
        Ok(
            StakingState {
                candidates: s.candidates.update(at, with_self_stake(cand, -(delta as int))),
                locks: with_lock(
                    s.locks,
                    id,
                    Lock { amount: delta, unlock_at: lock_end(c, now) as BlockNumber },
                ),
                ..s
            },
        )
    }
}

/// An active candidate asks in round `round` to leave. It may leave once
/// the exit queue delay has passed.
pub open spec fn init_leave_candidates_spec(
    s: StakingState,
    c: Config,
    id: AccountId,
    round: RoundIndex,
) -> Result<StakingState, Error> {
    let at = position(s.candidates, id);
    let cand = s.candidates[at];
    if !is_candidate(s.candidates, id) || cand.status != CandidateStatus::Active {
        Err(Error::NotCandidate)
    } else if round + c.exit_queue_delay > RoundIndex::MAX {
        Err(Error::ArithmeticOverflow)
    } else {
        Ok(
            StakingState {
                candidates: s.candidates.update(
                    at,
                    CandidateState {
                        status: CandidateStatus::Leaving((round + c.exit_queue_delay) as RoundIndex),
                        ..cand
                    },
                ),
                ..s
            },
        )
    }
}

/// The locks after a lock that ends at `end` is placed, for each of the
/// edges in turn, on what its delegator had delegated.
pub open spec fn with_locks_for(locks: Locks, edges: Seq<Delegation>, end: BlockNumber) -> Locks
    decreases edges.len(),
{
    if edges.len() == 0 {
        locks
    } else {
        with_lock(
            with_locks_for(locks, edges.drop_last(), end),
            edges.last().delegator,
            Lock { amount: edges.last().amount, unlock_at: end },
        )
    }
}

/// The state after the candidate `id` has left: it is a candidate no more,
/// nobody backs it any longer, and its own stake and what each of its
/// delegators had delegated to it are locked until block `end`.
pub open spec fn after_exit(s: StakingState, id: AccountId, end: BlockNumber) -> StakingState {
    let at = position(s.candidates, id);
    StakingState {
        candidates: s.candidates.remove(at),
        delegations: edges_past(s.delegations, id),
        locks: with_locks_for(
            with_lock(s.locks, id, Lock { amount: s.candidates[at].self_stake, unlock_at: end }),
            edges_to(s.delegations, id),
            end,
        ),
    }
}

/// A candidate that asked to leave does so in round `round`, at block
/// `now`.
pub open spec fn execute_leave_candidates_spec(
    s: StakingState,
    c: Config,
    id: AccountId,
    round: RoundIndex,
    now: BlockNumber,
) -> Result<StakingState, Error> {
    let cand = candidate_of(s.candidates, id);
    if !is_candidate(s.candidates, id) {
        Err(Error::NotCandidate)
    } else {
        match cand.status {
            CandidateStatus::Leaving(exit_round) => {
                if round < exit_round {
                    Err(Error::ExitNotMatured)
                } else if lock_end(c, now) > BlockNumber::MAX {
                    Err(Error::ArithmeticOverflow)
                } else {
                    Ok(after_exit(s, id, lock_end(c, now) as BlockNumber))
                }
            },
            _ => Err(Error::NotLeaving),
        }
    }
}

/// Why `delegator` may not begin to back `candidate` with `amount`, if it
/// may not.
pub open spec fn delegation_error(
    s: StakingState,
    c: Config,
    delegator: AccountId,
    candidate: AccountId,
    amount: Balance,
    must_exist: bool,
) -> Option<Error> {
    if !is_candidate(s.candidates, candidate) {
        Some(Error::CandidateNotFound)
    } else if amount < c.min_delegator_stake {
        Some(Error::InsufficientDelegatorStake)
    } else if must_exist && delegation_count(s.delegations, delegator) == 0 {
        Some(Error::DelegatorNotFound)
    } else if delegation_count(s.delegations, delegator) >= c.max_delegations_per_delegator {
        Some(Error::TooManyDelegations)
    } else if has_delegation(s.delegations, delegator, candidate) {
        Some(Error::DelegationExists)
    } else if candidate_of(s.candidates, candidate).total_stake + amount > Balance::MAX
        || delegated_by(s.delegations, delegator) + amount > Balance::MAX {
        Some(Error::ArithmeticOverflow)
    } else {
        None
    }
}

/// The state after `delegator` has begun to back `candidate` with
/// `amount`, locked from block `now` on, for no period.
pub open spec fn with_delegation(
    s: StakingState,
    delegator: AccountId,
    candidate: AccountId,
    amount: Balance,
    now: BlockNumber,
) -> StakingState {
    let at = position(s.candidates, candidate);
    StakingState {
        candidates: s.candidates.update(at, with_backing(s.candidates[at], amount as int)),
        delegations: s.delegations.push(Delegation { delegator, candidate, amount }),
        locks: with_lock(s.locks, delegator, Lock { amount, unlock_at: now }),
    }
}

/// An account begins to back `candidate` with `amount`.
pub open spec fn join_delegators_spec(
    s: StakingState,
    c: Config,
    delegator: AccountId,
    candidate: AccountId,
    amount: Balance,
    now: BlockNumber,
) -> Result<StakingState, Error> {
    match delegation_error(s, c, delegator, candidate, amount, false) {
        Some(e) => Err(e),
        None => Ok(with_delegation(s, delegator, candidate, amount, now)),
    }
}

/// A delegator begins to back one more candidate.
pub open spec fn delegate_another_candidate_spec(
    s: StakingState,
    c: Config,
    delegator: AccountId,
    candidate: AccountId,
    amount: Balance,
    now: BlockNumber,
) -> Result<StakingState, Error> {
    match delegation_error(s, c, delegator, candidate, amount, true) {
        Some(e) => Err(e),
        None => Ok(with_delegation(s, delegator, candidate, amount, now)),
    }
}

/// The state after what `delegator` has delegated to `candidate` changed
/// by `change`.
pub open spec fn with_delegation_changed(
    s: StakingState,
    delegator: AccountId,
    candidate: AccountId,
    change: int,
) -> StakingState {
    let at = position(s.candidates, candidate);
    let edge = edge_position(s.delegations, delegator, candidate);
    StakingState {
        candidates: s.candidates.update(at, with_backing(s.candidates[at], change)),
        delegations: s.delegations.update(edge, with_amount(s.delegations[edge], change)),
        ..s
    }
}

/// A delegator adds `delta` to what it has delegated to `candidate`. What
/// is added is locked from block `now` on, for no period.
pub open spec fn delegator_stake_more_spec(
    s: StakingState,
    c: Config,
    delegator: AccountId,
    candidate: AccountId,
    delta: Balance,
    now: BlockNumber,
) -> Result<StakingState, Error> {
    if !has_delegation(s.delegations, delegator, candidate) {
        Err(Error::DelegationNotFound)
    } else if candidate_of(s.candidates, candidate).total_stake + delta > Balance::MAX
        || delegated_by(s.delegations, delegator) + delta > Balance::MAX {
        Err(Error::ArithmeticOverflow)
    } else {
        let changed = with_delegation_changed(s, delegator, candidate, delta as int);
        Ok(
            StakingState {
                locks: with_lock(s.locks, delegator, Lock { amount: delta, unlock_at: now }),
                ..changed
            },
        )
    }
}

/// A delegator withdraws `delta` from what it has delegated to
/// `candidate`, which must leave the minimum there. What is withdrawn stays
/// locked for the stake duration.
pub open spec fn delegator_stake_less_spec(
    s: StakingState,
    c: Config,
    delegator: AccountId,
    candidate: AccountId,
    delta: Balance,
    now: BlockNumber,
) -> Result<StakingState, Error> {
    let edge = s.delegations[edge_position(s.delegations, delegator, candidate)];
    if !has_delegation(s.delegations, delegator, candidate) {
        Err(Error::DelegationNotFound)
    } else if delta > edge.amount {
        Err(Error::ArithmeticOverflow)
    } else if edge.amount - delta < c.min_delegator_stake {
        Err(Error::StakeBelowMinimum)
    } else if lock_end(c, now) > BlockNumber::MAX {
        Err(Error::ArithmeticOverflow)
    } else {
        let changed = with_delegation_changed(s, delegator, candidate, -(delta as int));
        Ok(
            StakingState {
                locks: with_lock(
                    s.locks,
                    delegator,
                    Lock { amount: delta, unlock_at: lock_end(c, now) as BlockNumber },
                ),
                ..changed
            },
        )
    }
}

/// A delegator ceases to back `candidate`. What it had delegated stays
/// locked for the stake duration.
pub open spec fn revoke_delegation_spec(
    s: StakingState,
    c: Config,
    delegator: AccountId,
    candidate: AccountId,
    now: BlockNumber,
) -> Result<StakingState, Error> {
    let at = position(s.candidates, candidate);
    let k = edge_position(s.delegations, delegator, candidate);
    let edge = s.delegations[k];
    if !has_delegation(s.delegations, delegator, candidate) {
        Err(Error::DelegationNotFound)
    } else if lock_end(c, now) > BlockNumber::MAX {
        Err(Error::ArithmeticOverflow)
    } else {
        Ok(
            StakingState {
                candidates: s.candidates.update(
                    at,
                    with_backing(s.candidates[at], -(edge.amount as int)),
                ),
                delegations: s.delegations.remove(k),
                locks: with_lock(
                    s.locks,
                    delegator,
                    Lock { amount: edge.amount, unlock_at: lock_end(c, now) as BlockNumber },
                ),
            },
        )
    }
}

/// The candidate table after `delegator` has ceased to back the candidates
/// that `ds` says it backs.
pub open spec fn without_backing_of(
    cs: Seq<CandidateState>,
    ds: Seq<Delegation>,
    delegator: AccountId,
) -> Seq<CandidateState> {
    Seq::new(
        cs.len(),
        |i: int| with_backing(cs[i], -delegated_between(ds, delegator, cs[i].id)),
    )
}

/// A delegator ceases to back any candidate. All that it had delegated
/// stays locked for the stake duration.
pub open spec fn leave_delegators_spec(
    s: StakingState,
    c: Config,
    delegator: AccountId,
    now: BlockNumber,
) -> Result<StakingState, Error> {
    if delegation_count(s.delegations, delegator) == 0 {
        Err(Error::DelegatorNotFound)
    } else if lock_end(c, now) > BlockNumber::MAX {
        Err(Error::ArithmeticOverflow)
    } else {
        Ok(
            StakingState {
                candidates: without_backing_of(s.candidates, s.delegations, delegator),
                delegations: edges_beside(s.delegations, delegator),
                locks: with_locks_for(
                    s.locks,
                    edges_of(s.delegations, delegator),
                    lock_end(c, now) as BlockNumber,
                ),
            },
        )
    }
}

/// An account releases its locks that are due at block `now`.
pub open spec fn try_unlock_spec(s: StakingState, account: AccountId, now: BlockNumber) -> Result<
    StakingState,
    Error,
> {
    if has_due(locks_in(s.locks, account), now) {
        Ok(StakingState { locks: with_release(s.locks, account, now), ..s })
    } else {
        Err(Error::NothingToUnlock)
    }
}

} // verus!
