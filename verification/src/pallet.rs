//! The staking pallet: candidates, delegations and locks under one roof.
//!
//! Every operation either applies in full or is rejected and changes
//! nothing. What an operation makes of the state is stated in
//! [`crate::state`]; the functions here carry it out. Time is handed in:
//! the operations that place a lock take the current block, and those that
//! depend on the round take the current round.

use vstd::prelude::*;
use crate::candidates::{
    candidate_of, exits_due, find_candidate, find_exits_due, is_candidate,
    is_selection, lemma_position, position, select, CandidateState, CandidateStatus,
};
use crate::delegations::{
    backing, count_delegations, delegated_by, delegation_count, edges_beside,
    edges_of, edges_past, edges_to, find_delegation, find_edges_of, find_edges_to,
    has_delegation, lemma_filter_step, lemma_total_grows, lemma_total_step, sum_delegated_by,
    Delegation,
};
use crate::error::Error;
use crate::invariants::{
    lemma_after_exit_wf, lemma_candidate_stake_less_wf, lemma_candidate_stake_more_wf,
    lemma_delegated_between, lemma_delegator_stake_less_wf,
    lemma_delegator_stake_more_wf, lemma_edge_position, lemma_init_leave_candidates_wf,
    lemma_join_candidates_wf, lemma_leave_delegators_wf, lemma_revoke_delegation_wf,
    lemma_total_stake_covers, lemma_try_unlock_wf, lemma_with_delegation_wf,
};
use crate::ledger::{checked_unlock_height, locks_in, StakeLedger};
use crate::lock::{locked_at, locked_total, Lock};
use crate::state::{
    candidate_stake_error, candidate_stake_less_spec, candidate_stake_more_spec,
    delegate_another_candidate_spec, delegated_between, delegation_error,
    delegator_stake_less_spec, delegator_stake_more_spec, edge_position,
    execute_leave_candidates_spec, init_leave_candidates_spec, join_candidates_spec,
    join_delegators_spec, leave_delegators_spec, linking, lock_end, revoke_delegation_spec,
    state_wf, try_unlock_spec, with_delegation, with_locks_for, without_backing_of, Config,
    StakingState,
};
use crate::{AccountId, Balance, BlockNumber, RoundIndex};

verus! {

/// What the pallet reports of a change.
#[derive(Copy, Clone, Debug, PartialEq, Eq, Structural)]
pub enum Event {
    /// A value was stored by an account.
    SomethingStored(u32, AccountId),
}

/// The staking pallet.
pub struct Pallet {
    config: Config,
    candidates: Vec<CandidateState>,
    delegations: Vec<Delegation>,
    ledger: StakeLedger,
    something: Option<u32>,
}

impl View for Pallet {
    type V = StakingState;

    closed spec fn view(&self) -> StakingState {
        StakingState {
            candidates: self.candidates@,
            delegations: self.delegations@,
            locks: self.ledger@,
        }
    }
}

/// What an operation leaves behind: the state that it is said to lead to,
/// or the state as it was where it is rejected. The parameters and the
/// stored value stay.
pub open spec fn follows(before: Pallet, after: Pallet, outcome: Result<StakingState, Error>) -> bool {
    &&& after.config() == before.config()
    &&& after.stored() == before.stored()
    &&& after@ == match outcome {
        Ok(next) => next,
        Err(_) => before@,
    }
}

/// What an operation on one account returns: the amount of the account
/// that is frozen afterwards, or the reason for which it is rejected.
pub open spec fn frozen_or_error(
    outcome: Result<StakingState, Error>,
    account: AccountId,
) -> Result<Balance, Error> {
    match outcome {
        Ok(next) => Ok(locked_total(locks_in(next.locks, account)) as Balance),
        Err(e) => Err(e),
    }
}

/// The value that follows a stored value: one more. There is none where
/// nothing is stored, or where the stored value is the largest there is.
pub open spec fn incremented(stored: Option<u32>) -> Result<u32, Error> {
    match stored {
        None => Err(Error::NoneValue),
        Some(value) => if value == u32::MAX {
            Err(Error::StorageOverflow)
        } else {
            Ok((value + 1) as u32)
        },
    }
}

/// Computes the value that follows a stored value.
pub fn next_stored(stored: Option<u32>) -> (r: Result<u32, Error>)
    ensures
        r == incremented(stored),
{
    match stored {
        None => Err(Error::NoneValue),
        Some(value) => match value.checked_add(1) {
            None => Err(Error::StorageOverflow),
            Some(next) => Ok(next),
        },
    }
}

impl Pallet {
    /// The parameters of the pallet.
    pub closed spec fn config(&self) -> Config {
        self.config
    }

    /// The stored value, if one was stored.
    pub closed spec fn stored(&self) -> Option<u32> {
        self.something
    }

    /// The books of locks run on the lock period of the parameters.
    pub closed spec fn inv(&self) -> bool {
        self.ledger.period() == self.config.period_length
    }

    /// The pallet is well formed: its state holds together.
    pub open spec fn wf(&self) -> bool {
        self.inv() && state_wf(self@, self.config())
    }

    /// A pallet without candidates, delegations, locks or stored value.
    pub fn new(config: Config) -> (r: Pallet)
        ensures
            r.wf(),
            r.config() == config,
            r.stored().is_none(),
            r@.candidates == Seq::<CandidateState>::empty(),
            r@.delegations == Seq::<Delegation>::empty(),
            r@.locks == Map::<AccountId, Seq<Lock>>::empty(),
    {
        let r = Pallet {
            config,
            candidates: Vec::new(),
            delegations: Vec::new(),
            ledger: StakeLedger::new(config.period_length),
            something: None,
        };
        proof {
            assert forall|d: AccountId| #[trigger]
                delegation_count(r@.delegations, d) == 0 by {}
            assert forall|d: AccountId| #[trigger]
                delegated_by(r@.delegations, d) == 0 by {}
        }
        r
    }

    /// The parameters of the pallet.
    pub fn parameters(&self) -> (r: Config)
        ensures
            r == self.config(),
    {
        self.config
    }

    /// Stores `something` on behalf of the account `who`, and reports it.
    pub fn do_something(&mut self, who: AccountId, something: u32) -> (r: Event)
        ensures
            final(self).stored() == Some(something),
            final(self).config() == old(self).config(),
            final(self)@ == old(self)@,
            final(self).inv() == old(self).inv(),
            r == Event::SomethingStored(something, who),
    {
        self.something = Some(something);
        Event::SomethingStored(something, who)
    }

    /// Increments the stored value. Fails where none is stored, or where
    /// the stored value is the largest there is.
    pub fn cause_error(&mut self) -> (r: Result<(), Error>)
        ensures
            final(self).config() == old(self).config(),
            final(self)@ == old(self)@,
            final(self).inv() == old(self).inv(),
            match incremented(old(self).stored()) {
                Ok(next) => r.is_ok() && final(self).stored() == Some(next),
                Err(e) => r == Err::<(), Error>(e) && final(self).stored() == old(self).stored(),
            },
    {
        match next_stored(self.something) {
            Ok(next) => {
                self.something = Some(next);
                Ok(())
            },
            Err(e) => Err(e),
        }
    }

    /// The stored value, if one was stored.
    pub fn something(&self) -> (r: Option<u32>)
        ensures
            r == self.stored(),
    {
        self.something
    }

    /// Checks an amount against the bounds on a candidate's own stake.
    fn check_candidate_stake(&self, amount: Balance) -> (r: Result<(), Error>)
        ensures
            match candidate_stake_error(self.config(), amount as int) {
                Some(e) => r == Err::<(), Error>(e),
                None => r.is_ok(),
            },
    {
        if amount < self.config.min_candidate_stake {
            Err(Error::InsufficientStake)
        } else if amount > self.config.max_collator_candidate_stake {
            Err(Error::StakeTooHigh)
        } else {
            Ok(())
        }
    }

    /// The block at which a lock on withdrawn stake ends that is placed at
    /// block `now`.
    fn stake_lock_end(&self, now: BlockNumber) -> (r: Result<BlockNumber, Error>)
        ensures
            match r {
                Ok(end) => end == lock_end(self.config(), now),
                Err(e) => e == Error::ArithmeticOverflow && lock_end(self.config(), now)
                    > BlockNumber::MAX,
            },
    {
        match checked_unlock_height(now, self.config.stake_duration, self.config.period_length) {
            Some(end) => Ok(end),
            None => Err(Error::ArithmeticOverflow),
        }
    }

    /// The account `id` joins the candidates with `amount` as its own
    /// stake, at block `now`.
    pub fn join_candidates(&mut self, id: AccountId, amount: Balance, now: BlockNumber) -> (r:
        Result<Balance, Error>)
        requires
            old(self).wf(),
        ensures
            final(self).wf(),
            follows(
                *old(self),
                *final(self),
                join_candidates_spec(old(self)@, old(self).config(), id, amount, now),
            ),
            r == frozen_or_error(
                join_candidates_spec(old(self)@, old(self).config(), id, amount, now),
                id,
            ),
    {
        if let Some(_) = find_candidate(&self.candidates, id) {
            return Err(Error::CandidateExists);
        }
        if let Err(e) = self.check_candidate_stake(amount) {
            return Err(e);
        }
        self.candidates.push(
            CandidateState {
                id,
                self_stake: amount,
                total_stake: amount,
                status: CandidateStatus::Active,
            },
        );
        let frozen = self.ledger.place_lock_until(id, amount, now);
        proof {
            lemma_join_candidates_wf(old(self)@, old(self).config(), id, amount, now);
        }
        Ok(frozen)
    }

    /// The candidate `id` adds `delta` to its own stake, at block `now`.
    pub fn candidate_stake_more(&mut self, id: AccountId, delta: Balance, now: BlockNumber) -> (r:
        Result<Balance, Error>)
        requires
            old(self).wf(),
        ensures
            final(self).wf(),
            follows(
                *old(self),
                *final(self),
                candidate_stake_more_spec(old(self)@, old(self).config(), id, delta, now),
            ),
            r == frozen_or_error(
                candidate_stake_more_spec(old(self)@, old(self).config(), id, delta, now),
                id,
            ),
    {
        let at = match find_candidate(&self.candidates, id) {
            Some(at) => at,
            None => return Err(Error::NotCandidate),
        };
        proof {
            lemma_position(self.candidates@, at as int);
        }
        let cand = self.candidates[at];
        let total_stake = match cand.total_stake.checked_add(delta) {
            Some(total_stake) => total_stake,
            None => return Err(Error::ArithmeticOverflow),
        };
        proof {
            lemma_total_grows(self.delegations@, backing(id), 0);
        }
        let self_stake = cand.self_stake + delta;
        if let Err(e) = self.check_candidate_stake(self_stake) {
            return Err(e);
        }
        self.candidates.set(at, CandidateState { self_stake, total_stake, ..cand });
        let frozen = self.ledger.place_lock_until(id, delta, now);
        proof {
            lemma_candidate_stake_more_wf(old(self)@, old(self).config(), id, delta, now);
        }
        Ok(frozen)
    }

    /// The candidate `id` withdraws `delta` from its own stake, at block
    /// `now`.
    pub fn candidate_stake_less(&mut self, id: AccountId, delta: Balance, now: BlockNumber) -> (r:
        Result<Balance, Error>)
        requires
            old(self).wf(),
        ensures
            final(self).wf(),
            follows(
                *old(self),
                *final(self),
                candidate_stake_less_spec(old(self)@, old(self).config(), id, delta, now),
            ),
            r == frozen_or_error(
                candidate_stake_less_spec(old(self)@, old(self).config(), id, delta, now),
                id,
            ),
    {
        let at = match find_candidate(&self.candidates, id) {
            Some(at) => at,
            None => return Err(Error::NotCandidate),
        };
        proof {
            lemma_position(self.candidates@, at as int);
        }
        let cand = self.candidates[at];
        let self_stake = match cand.self_stake.checked_sub(delta) {
            Some(self_stake) => self_stake,
            None => return Err(Error::ArithmeticOverflow),
        };
        if let Err(e) = self.check_candidate_stake(self_stake) {
            return Err(e);
        }
        let end = match self.stake_lock_end(now) {
            Ok(end) => end,
            Err(e) => return Err(e),
        };
        proof {
            lemma_total_grows(self.delegations@, backing(id), 0);
        }
        let total_stake = cand.total_stake - delta;
        self.candidates.set(at, CandidateState { self_stake, total_stake, ..cand });
        let frozen = self.ledger.place_lock_until(id, delta, end);
        proof {
            lemma_candidate_stake_less_wf(old(self)@, old(self).config(), id, delta, now);
        }
        Ok(frozen)
    }

    /// The active candidate `id` asks in round `round` to leave, and is
    /// told the round from which it may.
    pub fn init_leave_candidates(&mut self, id: AccountId, round: RoundIndex) -> (r: Result<
        RoundIndex,
        Error,
    >)
        requires
            old(self).wf(),
        ensures
            final(self).wf(),
            follows(
                *old(self),
                *final(self),
                init_leave_candidates_spec(old(self)@, old(self).config(), id, round),
            ),
            match init_leave_candidates_spec(old(self)@, old(self).config(), id, round) {
                Ok(_) => r == Ok::<RoundIndex, Error>(
                    (round + old(self).config().exit_queue_delay) as RoundIndex,
                ),
                Err(e) => r == Err::<RoundIndex, Error>(e),
            },
    {
        let at = match find_candidate(&self.candidates, id) {
            Some(at) => at,
            None => return Err(Error::NotCandidate),
        };
        proof {
            lemma_position(self.candidates@, at as int);
        }
        let cand = self.candidates[at];
        match cand.status {
            CandidateStatus::Active => {},
            _ => return Err(Error::NotCandidate),
        }
        let exit_round = match round.checked_add(self.config.exit_queue_delay) {
            Some(exit_round) => exit_round,
            None => return Err(Error::ArithmeticOverflow),
        };
        self.candidates.set(
            at,
            CandidateState { status: CandidateStatus::Leaving(exit_round), ..cand },
        );
        proof {
            lemma_init_leave_candidates_wf(old(self)@, old(self).config(), id, round);
        }
        Ok(exit_round)
    }

    /// The account releases its locks that are due at block `now`, and is
    /// told by how much its frozen amount falls.
    pub fn try_unlock(&mut self, account: AccountId, now: BlockNumber) -> (r: Result<Balance, Error>)
        requires
            old(self).wf(),
        ensures
            final(self).wf(),
            follows(*old(self), *final(self), try_unlock_spec(old(self)@, account, now)),
            match try_unlock_spec(old(self)@, account, now) {
                Ok(next) => r == Ok::<Balance, Error>(
                    (locked_total(locks_in(old(self)@.locks, account)) - locked_total(
                        locks_in(next.locks, account),
                    )) as Balance,
                ) && r.unwrap() > 0,
                Err(e) => r == Err::<Balance, Error>(e),
            },
    {
        let r = self.ledger.try_unlock(account, now);
        proof {
            if r.is_ok() {
                lemma_try_unlock_wf(old(self)@, old(self).config(), account, now);
            }
        }
        r
    }

    /// Begins to back `candidate` with `amount` for `delegator`, who must
    /// be a delegator already where `must_exist` says so.
    fn delegate(
        &mut self,
        delegator: AccountId,
        candidate: AccountId,
        amount: Balance,
        now: BlockNumber,
        must_exist: bool,
    ) -> (r: Result<Balance, Error>)
        requires
            old(self).wf(),
        ensures
            final(self).wf(),
            follows(
                *old(self),
                *final(self),
                match delegation_error(
                    old(self)@,
                    old(self).config(),
                    delegator,
                    candidate,
                    amount,
                    must_exist,
                ) {
                    Some(e) => Err(e),
                    None => Ok(with_delegation(old(self)@, delegator, candidate, amount, now)),
                },
            ),
            r == frozen_or_error(
                match delegation_error(
                    old(self)@,
                    old(self).config(),
                    delegator,
                    candidate,
                    amount,
                    must_exist,
                ) {
                    Some(e) => Err(e),
                    None => Ok(with_delegation(old(self)@, delegator, candidate, amount, now)),
                },
                delegator,
            ),
    {
        let at = match find_candidate(&self.candidates, candidate) {
            Some(at) => at,
            None => return Err(Error::CandidateNotFound),
        };
        proof {
            lemma_position(self.candidates@, at as int);
        }
        if amount < self.config.min_delegator_stake {
            return Err(Error::InsufficientDelegatorStake);
        }
        let count = count_delegations(&self.delegations, delegator);
        if must_exist && count == 0 {
            return Err(Error::DelegatorNotFound);
        }
        assert(delegation_count(self.delegations@, delegator)
            <= self.config.max_delegations_per_delegator);
        if count >= self.config.max_delegations_per_delegator as usize {
            return Err(Error::TooManyDelegations);
        }
        if let Some(_) = find_delegation(&self.delegations, delegator, candidate) {
            return Err(Error::DelegationExists);
        }
        let cand = self.candidates[at];
        let total_stake = match cand.total_stake.checked_add(amount) {
            Some(total_stake) => total_stake,
            None => return Err(Error::ArithmeticOverflow),
        };
        assert(delegated_by(self.delegations@, delegator) <= Balance::MAX);
        let staked = sum_delegated_by(&self.delegations, delegator);
        if let None = staked.checked_add(amount) {
            return Err(Error::ArithmeticOverflow);
        }
        self.candidates.set(at, CandidateState { total_stake, ..cand });
        self.delegations.push(Delegation { delegator, candidate, amount });
        let frozen = self.ledger.place_lock_until(delegator, amount, now);
        proof {
            lemma_with_delegation_wf(
                old(self)@,
                old(self).config(),
                delegator,
                candidate,
                amount,
                now,
                must_exist,
            );
        }
        Ok(frozen)
    }

    /// The account `delegator` begins to back `candidate` with `amount`,
    /// at block `now`.
    pub fn join_delegators(
        &mut self,
        delegator: AccountId,
        candidate: AccountId,
        amount: Balance,
        now: BlockNumber,
    ) -> (r: Result<Balance, Error>)
        requires
            old(self).wf(),
        ensures
            final(self).wf(),
            follows(
                *old(self),
                *final(self),
                join_delegators_spec(
                    old(self)@,
                    old(self).config(),
                    delegator,
                    candidate,
                    amount,
                    now,
                ),
            ),
            r == frozen_or_error(
                join_delegators_spec(
                    old(self)@,
                    old(self).config(),
                    delegator,
                    candidate,
                    amount,
                    now,
                ),
                delegator,
            ),
    {
        self.delegate(delegator, candidate, amount, now, false)
    }

    /// The delegator `delegator` begins to back one more candidate,
    /// `candidate`, with `amount`, at block `now`.
    pub fn delegate_another_candidate(
        &mut self,
        delegator: AccountId,
        candidate: AccountId,
        amount: Balance,
        now: BlockNumber,
    ) -> (r: Result<Balance, Error>)
        requires
            old(self).wf(),
        ensures
            final(self).wf(),
            follows(
                *old(self),
                *final(self),
                delegate_another_candidate_spec(
                    old(self)@,
                    old(self).config(),
                    delegator,
                    candidate,
                    amount,
                    now,
                ),
            ),
            r == frozen_or_error(
                delegate_another_candidate_spec(
                    old(self)@,
                    old(self).config(),
                    delegator,
                    candidate,
                    amount,
                    now,
                ),
                delegator,
            ),
    {
        self.delegate(delegator, candidate, amount, now, true)
    }

    /// Looks up an edge and the candidate that it leads to.
    fn find_edge(&self, delegator: AccountId, candidate: AccountId) -> (r: Option<(usize, usize)>)
        requires
            self.wf(),
        ensures
            match r {
                Some((k, at)) => {
                    &&& has_delegation(self@.delegations, delegator, candidate)
                    &&& k == edge_position(self@.delegations, delegator, candidate)
                    &&& is_candidate(self@.candidates, candidate)
                    &&& at == position(self@.candidates, candidate)
                    &&& self@.candidates[at as int].total_stake >= self@.delegations[k as int].amount
                    &&& delegated_by(self@.delegations, delegator)
                        >= self@.delegations[k as int].amount
                },
                None => !has_delegation(self@.delegations, delegator, candidate),
            },
    {
        let k = match find_delegation(&self.delegations, delegator, candidate) {
            Some(k) => k,
            None => return None,
        };
        proof {
            lemma_edge_position(self.delegations@, k as int);
            lemma_total_stake_covers(self@, self.config(), k as int);
        }
        match find_candidate(&self.candidates, candidate) {
            Some(at) => {
                proof {
                    lemma_position(self.candidates@, at as int);
                }
                Some((k, at))
            },
            None => None,
        }
    }

    /// The delegator adds `delta` to what it has delegated to `candidate`,
    /// at block `now`.
    pub fn delegator_stake_more(
        &mut self,
        delegator: AccountId,
        candidate: AccountId,
        delta: Balance,
        now: BlockNumber,
    ) -> (r: Result<Balance, Error>)
        requires
            old(self).wf(),
        ensures
            final(self).wf(),
            follows(
                *old(self),
                *final(self),
                delegator_stake_more_spec(
                    old(self)@,
                    old(self).config(),
                    delegator,
                    candidate,
                    delta,
                    now,
                ),
            ),
            r == frozen_or_error(
                delegator_stake_more_spec(
                    old(self)@,
                    old(self).config(),
                    delegator,
                    candidate,
                    delta,
                    now,
                ),
                delegator,
            ),
    {
        let (k, at) = match self.find_edge(delegator, candidate) {
            Some(found) => found,
            None => return Err(Error::DelegationNotFound),
        };
        let cand = self.candidates[at];
        let edge = self.delegations[k];
        let total_stake = match cand.total_stake.checked_add(delta) {
            Some(total_stake) => total_stake,
            None => return Err(Error::ArithmeticOverflow),
        };
        assert(delegated_by(self.delegations@, delegator) <= Balance::MAX);
        let staked = sum_delegated_by(&self.delegations, delegator);
        if let None = staked.checked_add(delta) {
            return Err(Error::ArithmeticOverflow);
        }
        self.candidates.set(at, CandidateState { total_stake, ..cand });
        self.delegations.set(k, Delegation { amount: edge.amount + delta, ..edge });
        let frozen = self.ledger.place_lock_until(delegator, delta, now);
        proof {
            lemma_delegator_stake_more_wf(
                old(self)@,
                old(self).config(),
                delegator,
                candidate,
                delta,
                now,
            );
        }
        Ok(frozen)
    }

    /// The delegator withdraws `delta` from what it has delegated to
    /// `candidate`, at block `now`.
    pub fn delegator_stake_less(
        &mut self,
        delegator: AccountId,
        candidate: AccountId,
        delta: Balance,
        now: BlockNumber,
    ) -> (r: Result<Balance, Error>)
        requires
            old(self).wf(),
        ensures
            final(self).wf(),
            follows(
                *old(self),
                *final(self),
                delegator_stake_less_spec(
                    old(self)@,
                    old(self).config(),
                    delegator,
                    candidate,
                    delta,
                    now,
                ),
            ),
            r == frozen_or_error(
                delegator_stake_less_spec(
                    old(self)@,
                    old(self).config(),
                    delegator,
                    candidate,
                    delta,
                    now,
                ),
                delegator,
            ),
    {
        let (k, at) = match self.find_edge(delegator, candidate) {
            Some(found) => found,
            None => return Err(Error::DelegationNotFound),
        };
        let cand = self.candidates[at];
        let edge = self.delegations[k];
        let amount = match edge.amount.checked_sub(delta) {
            Some(amount) => amount,
            None => return Err(Error::ArithmeticOverflow),
        };
        if amount < self.config.min_delegator_stake {
            return Err(Error::StakeBelowMinimum);
        }
        let end = match self.stake_lock_end(now) {
            Ok(end) => end,
            Err(e) => return Err(e),
        };
        self.candidates.set(
            at,
            CandidateState { total_stake: cand.total_stake - delta, ..cand },
        );
        self.delegations.set(k, Delegation { amount, ..edge });
        let frozen = self.ledger.place_lock_until(delegator, delta, end);
        proof {
            lemma_delegator_stake_less_wf(
                old(self)@,
                old(self).config(),
                delegator,
                candidate,
                delta,
                now,
            );
        }
        Ok(frozen)
    }

    /// The delegator ceases to back `candidate`, at block `now`.
    pub fn revoke_delegation(
        &mut self,
        delegator: AccountId,
        candidate: AccountId,
        now: BlockNumber,
    ) -> (r: Result<Balance, Error>)
        requires
            old(self).wf(),
        ensures
            final(self).wf(),
            follows(
                *old(self),
                *final(self),
                revoke_delegation_spec(old(self)@, old(self).config(), delegator, candidate, now),
            ),
            r == frozen_or_error(
                revoke_delegation_spec(old(self)@, old(self).config(), delegator, candidate, now),
                delegator,
            ),
    {
        let (k, at) = match self.find_edge(delegator, candidate) {
            Some(found) => found,
            None => return Err(Error::DelegationNotFound),
        };
        let end = match self.stake_lock_end(now) {
            Ok(end) => end,
            Err(e) => return Err(e),
        };
        let cand = self.candidates[at];
        let edge = self.delegations.remove(k);
        self.candidates.set(
            at,
            CandidateState { total_stake: cand.total_stake - edge.amount, ..cand },
        );
        let frozen = self.ledger.place_lock_until(delegator, edge.amount, end);
        proof {
            lemma_revoke_delegation_wf(old(self)@, old(self).config(), delegator, candidate, now);
        }
        Ok(frozen)
    }

    /// The candidate `id`, which asked to leave, does so in round `round`,
    /// at block `now`. Its own stake and what each of its delegators had
    /// delegated to it stay locked for the stake duration. Returns what was
    /// recorded of the candidate, which has now left.
    pub fn execute_leave_candidates(
        &mut self,
        id: AccountId,
        round: RoundIndex,
        now: BlockNumber,
    ) -> (r: Result<CandidateState, Error>)
        requires
            old(self).wf(),
        ensures
            final(self).wf(),
            follows(
                *old(self),
                *final(self),
                execute_leave_candidates_spec(old(self)@, old(self).config(), id, round, now),
            ),
            match execute_leave_candidates_spec(old(self)@, old(self).config(), id, round, now) {
                Ok(_) => r == Ok::<CandidateState, Error>(
                    CandidateState {
                        status: CandidateStatus::Left,
                        ..candidate_of(old(self)@.candidates, id)
                    },
                ),
                Err(e) => r == Err::<CandidateState, Error>(e),
            },
    {
        let at = match find_candidate(&self.candidates, id) {
            Some(at) => at,
            None => return Err(Error::NotCandidate),
        };
        proof {
            lemma_position(self.candidates@, at as int);
        }
        match self.candidates[at].status {
            CandidateStatus::Leaving(exit_round) => {
                if round < exit_round {
                    return Err(Error::ExitNotMatured);
                }
            },
            _ => return Err(Error::NotLeaving),
        }
        let end = match self.stake_lock_end(now) {
            Ok(end) => end,
            Err(e) => return Err(e),
        };
        let cand = self.candidates.remove(at);
        self.ledger.place_lock_until(id, cand.self_stake, end);
        let ghost base = self.ledger@;
        let ghost ds = self.delegations@;
        let mut kept: Vec<Delegation> = Vec::new();
        let mut k: usize = 0;
        assert(ds.take(0) =~= Seq::<Delegation>::empty());
        assert(edges_past(ds.take(0), id) =~= Seq::<Delegation>::empty()) by {
            reveal(Seq::filter);
        }
        assert(edges_to(ds.take(0), id) =~= Seq::<Delegation>::empty()) by {
            reveal(Seq::filter);
        }
        while k < self.delegations.len()
            invariant
                k <= ds.len(),
                self.delegations@ == ds,
                self.candidates@ == old(self).candidates@.remove(at as int),
                self.config == old(self).config,
                self.something == old(self).something,
                self.ledger.wf(),
                self.ledger.period() == old(self).ledger.period(),
                kept@ == edges_past(ds.take(k as int), id),
                self.ledger@ == with_locks_for(base, edges_to(ds.take(k as int), id), end),
            decreases ds.len() - k,
        {
            let edge = self.delegations[k];
            proof {
                lemma_filter_step(ds, |e: Delegation| e.candidate != id, k as int);
                lemma_filter_step(ds, |e: Delegation| e.candidate == id, k as int);
                if edge.candidate == id {
                    assert(edges_to(ds.take(k + 1), id).drop_last() =~= edges_to(
                        ds.take(k as int),
                        id,
                    ));
                }
            }
            if edge.candidate == id {
                self.ledger.place_lock_until(edge.delegator, edge.amount, end);
            } else {
                kept.push(edge);
            }
            k += 1;
        }
        self.delegations = kept;
        proof {
            assert(ds.take(ds.len() as int) =~= ds);
            lemma_after_exit_wf(old(self)@, old(self).config(), id, end);
        }
        Ok(CandidateState { status: CandidateStatus::Left, ..cand })
    }

    /// The delegator ceases to back any candidate, at block `now`. All
    /// that it had delegated stays locked for the stake duration. Either
    /// every edge of the delegator goes, or none does.
    pub fn leave_delegators(&mut self, delegator: AccountId, now: BlockNumber) -> (r: Result<
        Balance,
        Error,
    >)
        requires
            old(self).wf(),
        ensures
            final(self).wf(),
            follows(
                *old(self),
                *final(self),
                leave_delegators_spec(old(self)@, old(self).config(), delegator, now),
            ),
            r == frozen_or_error(
                leave_delegators_spec(old(self)@, old(self).config(), delegator, now),
                delegator,
            ),
    {
        if count_delegations(&self.delegations, delegator) == 0 {
            return Err(Error::DelegatorNotFound);
        }
        let end = match self.stake_lock_end(now) {
            Ok(end) => end,
            Err(e) => return Err(e),
        };
        let ghost base = self.ledger@;
        let ghost ds = self.delegations@;
        let ghost cs = self.candidates@;
        let mut kept: Vec<Delegation> = Vec::new();
        let mut k: usize = 0;
        proof {
            assert(ds.take(0) =~= Seq::<Delegation>::empty());
            assert(edges_beside(ds.take(0), delegator) =~= Seq::<Delegation>::empty()) by {
                reveal(Seq::filter);
            }
            assert(edges_of(ds.take(0), delegator) =~= Seq::<Delegation>::empty()) by {
                reveal(Seq::filter);
            }
            assert(self.candidates@ =~= without_backing_of(cs, ds.take(0), delegator));
        }
        while k < self.delegations.len()
            invariant
                k <= ds.len(),
                ds == old(self)@.delegations,
                cs == old(self)@.candidates,
                state_wf(old(self)@, old(self).config()),
                self.delegations@ == ds,
                self.candidates@ == without_backing_of(cs, ds.take(k as int), delegator),
                self.config == old(self).config,
                self.something == old(self).something,
                self.ledger.wf(),
                self.ledger.period() == old(self).ledger.period(),
                kept@ == edges_beside(ds.take(k as int), delegator),
                self.ledger@ == with_locks_for(base, edges_of(ds.take(k as int), delegator), end),
            decreases ds.len() - k,
        {
            let edge = self.delegations[k];
            proof {
                lemma_filter_step(ds, |e: Delegation| e.delegator != delegator, k as int);
                lemma_filter_step(ds, |e: Delegation| e.delegator == delegator, k as int);
                if edge.delegator == delegator {
                    assert(edges_of(ds.take(k + 1), delegator).drop_last() =~= edges_of(
                        ds.take(k as int),
                        delegator,
                    ));
                }
                assert forall|i: int| 0 <= i < cs.len() implies delegated_between(
                    ds.take(k + 1),
                    delegator,
                    (#[trigger] cs[i]).id,
                ) == delegated_between(ds.take(k as int), delegator, cs[i].id) + linking(
                    delegator,
                    cs[i].id,
                )(edge) && 0 <= delegated_between(ds.take(k as int), delegator, cs[i].id)
                    && delegated_between(ds.take(k + 1), delegator, cs[i].id)
                    <= cs[i].total_stake by {
                    lemma_total_step(ds, linking(delegator, cs[i].id), k as int);
                    lemma_total_grows(ds, linking(delegator, cs[i].id), k as int);
                    lemma_total_grows(ds, linking(delegator, cs[i].id), k + 1);
                    lemma_delegated_between(ds, delegator, cs[i].id);
                    lemma_total_grows(ds, backing(cs[i].id), 0);
                }
            }
            if edge.delegator == delegator {
                proof {
                    assert(is_candidate(cs, ds[k as int].candidate));
                    let i = position(cs, edge.candidate);
                    assert(self.candidates@[i].id == edge.candidate);
                }
                if let Some(at) = find_candidate(&self.candidates, edge.candidate) {
                    let cand = self.candidates[at];
                    proof {
                        assert(cs[at as int].id == edge.candidate);
                        assert forall|i: int| 0 <= i < cs.len() && i != at implies (
                        #[trigger] cs[i]).id != edge.candidate by {
                            if i < at {
                                assert(cs[i].id != cs[at as int].id);
                            } else {
                                assert(cs[at as int].id != cs[i].id);
                            }
                        }
                    }
                    self.candidates.set(
                        at,
                        CandidateState { total_stake: cand.total_stake - edge.amount, ..cand },
                    );
                }
                self.ledger.place_lock_until(delegator, edge.amount, end);
            } else {
                kept.push(edge);
            }
            proof {
                assert(self.candidates@ =~= without_backing_of(cs, ds.take(k + 1), delegator));
            }
            k += 1;
        }
        self.delegations = kept;
        proof {
            assert(ds.take(ds.len() as int) =~= ds);
            lemma_leave_delegators_wf(old(self)@, old(self).config(), delegator, now);
        }
        Ok(self.ledger.locked(delegator))
    }

    /// What is recorded of the candidate `id`, if it is one.
    pub fn candidate(&self, id: AccountId) -> (r: Option<CandidateState>)
        requires
            self.wf(),
        ensures
            match r {
                Some(cand) => is_candidate(self@.candidates, id) && cand == candidate_of(
                    self@.candidates,
                    id,
                ),
                None => !is_candidate(self@.candidates, id),
            },
    {
        match find_candidate(&self.candidates, id) {
            Some(at) => {
                proof {
                    lemma_position(self.candidates@, at as int);
                }
                Some(self.candidates[at])
            },
            None => None,
        }
    }

    /// The number of candidates.
    pub fn candidate_count(&self) -> (r: usize)
        ensures
            r == self@.candidates.len(),
    {
        self.candidates.len()
    }

    /// What `delegator` has delegated to `candidate`, if it backs it.
    pub fn delegation(&self, delegator: AccountId, candidate: AccountId) -> (r: Option<Balance>)
        requires
            self.wf(),
        ensures
            match r {
                Some(amount) => has_delegation(self@.delegations, delegator, candidate) && amount
                    == self@.delegations[edge_position(
                    self@.delegations,
                    delegator,
                    candidate,
                )].amount,
                None => !has_delegation(self@.delegations, delegator, candidate),
            },
    {
        match find_delegation(&self.delegations, delegator, candidate) {
            Some(k) => {
                proof {
                    lemma_edge_position(self.delegations@, k as int);
                }
                Some(self.delegations[k].amount)
            },
            None => None,
        }
    }

    /// The edges that lead to `candidate`, in the order of the table.
    pub fn delegations_to(&self, candidate: AccountId) -> (r: Vec<Delegation>)
        ensures
            r@ == edges_to(self@.delegations, candidate),
    {
        find_edges_to(&self.delegations, candidate)
    }

    /// The edges that start at `delegator`, in the order of the table.
    pub fn delegations_of(&self, delegator: AccountId) -> (r: Vec<Delegation>)
        ensures
            r@ == edges_of(self@.delegations, delegator),
    {
        find_edges_of(&self.delegations, delegator)
    }

    /// The number of candidates that `delegator` backs.
    pub fn delegations_held(&self, delegator: AccountId) -> (r: usize)
        ensures
            r == delegation_count(self@.delegations, delegator),
    {
        count_delegations(&self.delegations, delegator)
    }

    /// All that `delegator` has delegated: the sum over the candidates that
    /// it backs.
    pub fn delegator_stake(&self, delegator: AccountId) -> (r: Balance)
        requires
            self.wf(),
        ensures
            r == delegated_by(self@.delegations, delegator),
    {
        assert(delegated_by(self.delegations@, delegator) <= Balance::MAX);
        sum_delegated_by(&self.delegations, delegator)
    }

    /// The amount of `account` that is frozen as long as it releases
    /// nothing.
    pub fn locked(&self, account: AccountId) -> (r: Balance)
        requires
            self.wf(),
        ensures
            r == locked_total(locks_in(self@.locks, account)),
    {
        self.ledger.locked(account)
    }

    /// The amount of `account` that its locks freeze after block `block`.
    pub fn locked_after(&self, account: AccountId, block: BlockNumber) -> (r: Balance)
        requires
            self.wf(),
        ensures
            r == locked_at(locks_in(self@.locks, account), block as int),
    {
        self.ledger.locked_after(account, block)
    }

    /// The lock of `account` that covers its frozen amount: the largest it
    /// holds, which is the first to end.
    pub fn effective_lock(&self, account: AccountId) -> (r: Option<Lock>)
        requires
            self.wf(),
        ensures
            r == if locks_in(self@.locks, account).len() == 0 {
                None
            } else {
                Some(locks_in(self@.locks, account)[0])
            },
    {
        self.ledger.effective_lock(account)
    }

    /// The candidates that asked to leave and may do so from round `round`
    /// on, in the order of the table.
    pub fn pending_exits(&self, round: RoundIndex) -> (r: Vec<AccountId>)
        ensures
            r@ == exits_due(self@.candidates, round),
    {
        find_exits_due(&self.candidates, round)
    }

    /// Selects at most `limit` of the active candidates: those with the
    /// greatest total stake, the best first, the smaller account first
    /// among candidates of equal stake.
    pub fn select_candidates(&self, limit: u32) -> (r: Vec<AccountId>)
        requires
            self.wf(),
        ensures
            is_selection(self@.candidates, limit as int, r@),
    {
        select(&self.candidates, limit)
    }
}

} // verus!
