use parachain_staking::candidates::{CandidateState, CandidateStatus};
use parachain_staking::delegations::Delegation;
use parachain_staking::error::Error;
use parachain_staking::lock::Lock;
use parachain_staking::pallet::{Event, Pallet};
use parachain_staking::state::Config;

const ALICE: u64 = 1;
const BOB: u64 = 2;
const CAROL: u64 = 3;
const DAVE: u64 = 4;
const EVE: u64 = 5;

fn config() -> Config {
    Config {
        min_candidate_stake: 100,
        max_collator_candidate_stake: 1000,
        min_delegator_stake: 10,
        max_delegations_per_delegator: 2,
        stake_duration: 3,
        period_length: 10,
        exit_queue_delay: 2,
    }
}

fn active(id: u64, self_stake: u128, total_stake: u128) -> CandidateState {
    CandidateState { id, self_stake, total_stake, status: CandidateStatus::Active }
}

// The total stake of every candidate is its own stake and all that is
// delegated to it.
fn assert_totals(pallet: &Pallet, candidates: &[u64]) {
    for &id in candidates {
        if let Some(cand) = pallet.candidate(id) {
            let delegated: u128 = pallet.delegations_to(id).iter().map(|e| e.amount).sum();
            assert_eq!(cand.total_stake, cand.self_stake + delegated);
        } else {
            assert!(pallet.delegations_to(id).is_empty());
        }
    }
}

#[test]
fn new_pallet_is_empty() {
    let pallet = Pallet::new(config());
    assert_eq!(pallet.parameters(), config());
    assert_eq!(pallet.candidate_count(), 0);
    assert_eq!(pallet.candidate(ALICE), None);
    assert_eq!(pallet.something(), None);
    assert_eq!(pallet.locked(ALICE), 0);
    assert!(pallet.select_candidates(5).is_empty());
}

#[test]
fn join_candidates_records_the_stake() {
    let mut pallet = Pallet::new(config());
    assert_eq!(pallet.join_candidates(ALICE, 500, 7), Ok(500));
    assert_eq!(pallet.candidate(ALICE), Some(active(ALICE, 500, 500)));
    assert_eq!(pallet.candidate_count(), 1);
    // The lock lasts for no period: it ends at the block of joining.
    assert_eq!(pallet.effective_lock(ALICE), Some(Lock { amount: 500, unlock_at: 7 }));
    assert_eq!(pallet.locked(ALICE), 500);
}

#[test]
fn join_candidates_twice_fails() {
    let mut pallet = Pallet::new(config());
    assert_eq!(pallet.join_candidates(ALICE, 500, 0), Ok(500));
    assert_eq!(pallet.join_candidates(ALICE, 600, 0), Err(Error::CandidateExists));
    assert_eq!(pallet.join_candidates(ALICE, 1, 0), Err(Error::CandidateExists));
    assert_eq!(pallet.candidate(ALICE), Some(active(ALICE, 500, 500)));
    assert_eq!(pallet.candidate_count(), 1);
}

#[test]
fn join_candidates_checks_the_bounds() {
    let mut pallet = Pallet::new(config());
    assert_eq!(pallet.join_candidates(ALICE, 99, 0), Err(Error::InsufficientStake));
    assert_eq!(pallet.join_candidates(ALICE, 1001, 0), Err(Error::StakeTooHigh));
    assert_eq!(pallet.candidate_count(), 0);
    assert_eq!(pallet.locked(ALICE), 0);
    assert_eq!(pallet.join_candidates(ALICE, 100, 0), Ok(100));
    assert_eq!(pallet.join_candidates(BOB, 1000, 0), Ok(1000));
    assert_eq!(pallet.candidate_count(), 2);
}

#[test]
fn candidate_stake_more_adds_to_both_stakes() {
    let mut pallet = Pallet::new(config());
    pallet.join_candidates(ALICE, 500, 0).unwrap();
    pallet.join_delegators(BOB, ALICE, 40, 0).unwrap();
    assert_eq!(pallet.candidate_stake_more(ALICE, 200, 5), Ok(500));
    assert_eq!(pallet.candidate(ALICE), Some(active(ALICE, 700, 740)));
    assert_totals(&pallet, &[ALICE]);
}

#[test]
fn candidate_stake_more_fails() {
    let mut pallet = Pallet::new(config());
    assert_eq!(pallet.candidate_stake_more(ALICE, 1, 0), Err(Error::NotCandidate));
    pallet.join_candidates(ALICE, 500, 0).unwrap();
    assert_eq!(pallet.candidate_stake_more(ALICE, 501, 0), Err(Error::StakeTooHigh));
    assert_eq!(pallet.candidate_stake_more(ALICE, u128::MAX, 0), Err(Error::ArithmeticOverflow));
    assert_eq!(pallet.candidate_stake_more(ALICE, u128::MAX - 500, 0), Err(Error::StakeTooHigh));
    assert_eq!(pallet.candidate(ALICE), Some(active(ALICE, 500, 500)));
    assert_eq!(pallet.candidate_stake_more(ALICE, 500, 0), Ok(500));
    assert_eq!(pallet.candidate(ALICE), Some(active(ALICE, 1000, 1000)));
}

#[test]
fn candidate_stake_less_locks_what_is_withdrawn() {
    let mut pallet = Pallet::new(config());
    pallet.join_candidates(ALICE, 500, 0).unwrap();
    pallet.join_delegators(BOB, ALICE, 40, 0).unwrap();
    assert_eq!(pallet.candidate_stake_less(ALICE, 200, 5), Ok(500));
    assert_eq!(pallet.candidate(ALICE), Some(active(ALICE, 300, 340)));
    // Three periods of ten blocks from block 5 on.
    assert_eq!(pallet.locked_after(ALICE, 34), 200);
    assert_eq!(pallet.locked_after(ALICE, 35), 0);
    assert_totals(&pallet, &[ALICE]);
}

#[test]
fn candidate_stake_less_fails() {
    let mut pallet = Pallet::new(config());
    assert_eq!(pallet.candidate_stake_less(ALICE, 1, 0), Err(Error::NotCandidate));
    pallet.join_candidates(ALICE, 500, 0).unwrap();
    assert_eq!(pallet.candidate_stake_less(ALICE, 401, 0), Err(Error::InsufficientStake));
    assert_eq!(pallet.candidate_stake_less(ALICE, 501, 0), Err(Error::ArithmeticOverflow));
    assert_eq!(pallet.candidate_stake_less(ALICE, 100, u64::MAX), Err(Error::ArithmeticOverflow));
    assert_eq!(pallet.candidate(ALICE), Some(active(ALICE, 500, 500)));
    assert_eq!(pallet.effective_lock(ALICE), Some(Lock { amount: 500, unlock_at: 0 }));
    assert_eq!(pallet.candidate_stake_less(ALICE, 400, 0), Ok(500));
    assert_eq!(pallet.candidate(ALICE), Some(active(ALICE, 100, 100)));
}

#[test]
fn init_leave_candidates_sets_the_exit_round() {
    let mut pallet = Pallet::new(config());
    pallet.join_candidates(ALICE, 500, 0).unwrap();
    assert_eq!(pallet.init_leave_candidates(ALICE, 5), Ok(7));
    assert_eq!(
        pallet.candidate(ALICE),
        Some(CandidateState {
            id: ALICE,
            self_stake: 500,
            total_stake: 500,
            status: CandidateStatus::Leaving(7),
        })
    );
    assert_eq!(pallet.pending_exits(7), vec![ALICE]);
    assert!(pallet.pending_exits(6).is_empty());
}

#[test]
fn init_leave_candidates_fails() {
    let mut pallet = Pallet::new(config());
    assert_eq!(pallet.init_leave_candidates(ALICE, 5), Err(Error::NotCandidate));
    pallet.join_candidates(ALICE, 500, 0).unwrap();
    assert_eq!(pallet.init_leave_candidates(ALICE, u32::MAX - 1), Err(Error::ArithmeticOverflow));
    assert_eq!(pallet.init_leave_candidates(ALICE, 5), Ok(7));
    assert_eq!(pallet.init_leave_candidates(ALICE, 6), Err(Error::NotCandidate));
    assert_eq!(pallet.pending_exits(7), vec![ALICE]);
}

#[test]
fn exit_queue() {
    // Exit queue delay of 2 rounds; lock periods of 10 blocks, 3 of them.
    let mut pallet = Pallet::new(config());
    pallet.join_candidates(ALICE, 500, 10).unwrap();
    pallet.join_delegators(BOB, ALICE, 40, 11).unwrap();
    pallet.join_delegators(CAROL, ALICE, 60, 12).unwrap();
    assert_eq!(pallet.execute_leave_candidates(ALICE, 4, 40), Err(Error::NotLeaving));
    assert_eq!(pallet.init_leave_candidates(ALICE, 5), Ok(7));
    assert_eq!(pallet.execute_leave_candidates(ALICE, 5, 50), Err(Error::ExitNotMatured));
    assert_eq!(pallet.execute_leave_candidates(ALICE, 6, 60), Err(Error::ExitNotMatured));
    assert_eq!(pallet.candidate_count(), 1);
    assert_eq!(pallet.delegation(BOB, ALICE), Some(40));
    assert_eq!(
        pallet.execute_leave_candidates(ALICE, 7, 70),
        Ok(CandidateState {
            id: ALICE,
            self_stake: 500,
            total_stake: 600,
            status: CandidateStatus::Left,
        })
    );
    // It is removed from the candidate table, and its delegations with it.
    assert_eq!(pallet.candidate(ALICE), None);
    assert_eq!(pallet.candidate_count(), 0);
    assert_eq!(pallet.delegation(BOB, ALICE), None);
    assert_eq!(pallet.delegation(CAROL, ALICE), None);
    assert!(pallet.delegations_to(ALICE).is_empty());
    // The funds of all begin their countdown: 3 periods from block 70.
    assert_eq!(pallet.effective_lock(ALICE), Some(Lock { amount: 500, unlock_at: 100 }));
    assert_eq!(pallet.effective_lock(BOB), Some(Lock { amount: 40, unlock_at: 100 }));
    assert_eq!(pallet.effective_lock(CAROL), Some(Lock { amount: 60, unlock_at: 100 }));
    assert_eq!(pallet.try_unlock(BOB, 99), Err(Error::NothingToUnlock));
    assert_eq!(pallet.try_unlock(BOB, 100), Ok(40));
    assert_eq!(pallet.try_unlock(CAROL, 100), Ok(60));
    assert_eq!(pallet.try_unlock(ALICE, 100), Ok(500));
    assert_eq!(pallet.execute_leave_candidates(ALICE, 8, 80), Err(Error::NotCandidate));
}

#[test]
fn execute_leave_candidates_fails() {
    let mut pallet = Pallet::new(config());
    assert_eq!(pallet.execute_leave_candidates(ALICE, 7, 0), Err(Error::NotCandidate));
    pallet.join_candidates(ALICE, 500, 0).unwrap();
    assert_eq!(pallet.execute_leave_candidates(ALICE, 7, 0), Err(Error::NotLeaving));
    assert_eq!(pallet.init_leave_candidates(ALICE, 5), Ok(7));
    assert_eq!(pallet.execute_leave_candidates(ALICE, 6, 0), Err(Error::ExitNotMatured));
    assert_eq!(
        pallet.execute_leave_candidates(ALICE, 7, u64::MAX - 29),
        Err(Error::ArithmeticOverflow)
    );
    assert_eq!(pallet.candidate_count(), 1);
    assert!(pallet.execute_leave_candidates(ALICE, 9, u64::MAX - 30).is_ok());
    assert_eq!(pallet.effective_lock(ALICE), Some(Lock { amount: 500, unlock_at: u64::MAX }));
}

#[test]
fn exit_leaves_other_candidates_alone() {
    let mut pallet = Pallet::new(config());
    pallet.join_candidates(ALICE, 500, 0).unwrap();
    pallet.join_candidates(BOB, 300, 0).unwrap();
    pallet.join_delegators(CAROL, ALICE, 40, 0).unwrap();
    pallet.join_delegators(CAROL, BOB, 50, 0).unwrap();
    pallet.join_delegators(DAVE, BOB, 60, 0).unwrap();
    pallet.init_leave_candidates(ALICE, 0).unwrap();
    pallet.execute_leave_candidates(ALICE, 2, 20).unwrap();
    assert_eq!(pallet.candidate(BOB), Some(active(BOB, 300, 410)));
    assert_eq!(
        pallet.delegations_to(BOB),
        vec![
            Delegation { delegator: CAROL, candidate: BOB, amount: 50 },
            Delegation { delegator: DAVE, candidate: BOB, amount: 60 },
        ]
    );
    assert_eq!(pallet.delegations_held(CAROL), 1);
    assert_eq!(pallet.delegator_stake(CAROL), 50);
    assert_eq!(pallet.locked_after(CAROL, 49), 40);
    assert_eq!(pallet.locked_after(DAVE, 0), 0);
    assert_totals(&pallet, &[ALICE, BOB]);
}

#[test]
fn join_delegators_adds_an_edge() {
    let mut pallet = Pallet::new(config());
    pallet.join_candidates(ALICE, 500, 0).unwrap();
    assert_eq!(pallet.join_delegators(BOB, ALICE, 40, 3), Ok(40));
    assert_eq!(pallet.delegation(BOB, ALICE), Some(40));
    assert_eq!(pallet.candidate(ALICE), Some(active(ALICE, 500, 540)));
    assert_eq!(pallet.effective_lock(BOB), Some(Lock { amount: 40, unlock_at: 3 }));
    assert_eq!(pallet.delegations_held(BOB), 1);
    assert_eq!(pallet.delegator_stake(BOB), 40);
    assert_eq!(
        pallet.delegations_of(BOB),
        vec![Delegation { delegator: BOB, candidate: ALICE, amount: 40 }]
    );
}

#[test]
fn join_delegators_fails() {
    let mut pallet = Pallet::new(config());
    assert_eq!(pallet.join_delegators(BOB, ALICE, 40, 0), Err(Error::CandidateNotFound));
    pallet.join_candidates(ALICE, 500, 0).unwrap();
    assert_eq!(pallet.join_delegators(BOB, ALICE, 9, 0), Err(Error::InsufficientDelegatorStake));
    assert_eq!(pallet.join_delegators(BOB, ALICE, u128::MAX, 0), Err(Error::ArithmeticOverflow));
    assert_eq!(pallet.join_delegators(BOB, ALICE, 10, 0), Ok(10));
    assert_eq!(pallet.join_delegators(BOB, ALICE, 10, 0), Err(Error::DelegationExists));
    assert_eq!(pallet.candidate(ALICE), Some(active(ALICE, 500, 510)));
    assert_eq!(pallet.delegations_held(BOB), 1);
}

#[test]
fn delegator_total_must_stay_an_amount() {
    let mut pallet = Pallet::new(Config {
        max_collator_candidate_stake: u128::MAX,
        ..config()
    });
    pallet.join_candidates(ALICE, 100, 0).unwrap();
    pallet.join_candidates(BOB, 100, 0).unwrap();
    assert_eq!(pallet.join_delegators(CAROL, ALICE, u128::MAX - 100, 0), Ok(u128::MAX - 100));
    assert_eq!(pallet.join_delegators(CAROL, BOB, 101, 0), Err(Error::ArithmeticOverflow));
    assert_eq!(pallet.join_delegators(CAROL, BOB, 100, 0), Ok(u128::MAX - 100));
    assert_eq!(pallet.delegator_stake(CAROL), u128::MAX);
    assert_eq!(pallet.delegator_stake_more(CAROL, BOB, 1, 0), Err(Error::ArithmeticOverflow));
}

#[test]
fn delegator_cap() {
    // At most 2 delegations for each delegator.
    let mut pallet = Pallet::new(config());
    pallet.join_candidates(ALICE, 500, 0).unwrap();
    pallet.join_candidates(BOB, 500, 0).unwrap();
    pallet.join_candidates(CAROL, 500, 0).unwrap();
    assert_eq!(pallet.join_delegators(DAVE, ALICE, 40, 0), Ok(40));
    assert_eq!(pallet.delegate_another_candidate(DAVE, BOB, 50, 0), Ok(50));
    assert_eq!(pallet.delegate_another_candidate(DAVE, CAROL, 60, 0), Err(Error::TooManyDelegations));
    assert_eq!(pallet.join_delegators(DAVE, CAROL, 60, 0), Err(Error::TooManyDelegations));
    // All existing edges are unchanged.
    assert_eq!(
        pallet.delegations_of(DAVE),
        vec![
            Delegation { delegator: DAVE, candidate: ALICE, amount: 40 },
            Delegation { delegator: DAVE, candidate: BOB, amount: 50 },
        ]
    );
    assert_eq!(pallet.candidate(ALICE), Some(active(ALICE, 500, 540)));
    assert_eq!(pallet.candidate(BOB), Some(active(BOB, 500, 550)));
    assert_eq!(pallet.candidate(CAROL), Some(active(CAROL, 500, 500)));
    assert_eq!(pallet.locked(DAVE), 50);
    // Another delegator is not held back.
    assert_eq!(pallet.join_delegators(EVE, CAROL, 60, 0), Ok(60));
}

#[test]
fn delegate_another_candidate_needs_a_delegator() {
    let mut pallet = Pallet::new(config());
    pallet.join_candidates(ALICE, 500, 0).unwrap();
    pallet.join_candidates(BOB, 500, 0).unwrap();
    assert_eq!(pallet.delegate_another_candidate(DAVE, ALICE, 40, 0), Err(Error::DelegatorNotFound));
    assert_eq!(pallet.delegate_another_candidate(DAVE, CAROL, 40, 0), Err(Error::CandidateNotFound));
    assert_eq!(
        pallet.delegate_another_candidate(DAVE, ALICE, 1, 0),
        Err(Error::InsufficientDelegatorStake)
    );
    pallet.join_delegators(DAVE, ALICE, 40, 0).unwrap();
    assert_eq!(pallet.delegate_another_candidate(DAVE, ALICE, 40, 0), Err(Error::DelegationExists));
    assert_eq!(pallet.delegate_another_candidate(DAVE, BOB, 45, 0), Ok(45));
    assert_eq!(pallet.candidate(BOB), Some(active(BOB, 500, 545)));
}

#[test]
fn delegator_stake_more_and_less() {
    let mut pallet = Pallet::new(config());
    pallet.join_candidates(ALICE, 500, 0).unwrap();
    pallet.join_delegators(BOB, ALICE, 40, 0).unwrap();
    assert_eq!(pallet.delegator_stake_more(BOB, ALICE, 25, 1), Ok(40));
    assert_eq!(pallet.delegation(BOB, ALICE), Some(65));
    assert_eq!(pallet.candidate(ALICE), Some(active(ALICE, 500, 565)));
    assert_eq!(pallet.delegator_stake_less(BOB, ALICE, 55, 2), Ok(55));
    assert_eq!(pallet.delegation(BOB, ALICE), Some(10));
    assert_eq!(pallet.candidate(ALICE), Some(active(ALICE, 500, 510)));
    assert_eq!(pallet.effective_lock(BOB), Some(Lock { amount: 55, unlock_at: 32 }));
    assert_totals(&pallet, &[ALICE]);
}

#[test]
fn delegator_stake_changes_fail() {
    let mut pallet = Pallet::new(config());
    pallet.join_candidates(ALICE, 500, 0).unwrap();
    assert_eq!(pallet.delegator_stake_more(BOB, ALICE, 5, 0), Err(Error::DelegationNotFound));
    assert_eq!(pallet.delegator_stake_less(BOB, ALICE, 5, 0), Err(Error::DelegationNotFound));
    pallet.join_delegators(BOB, ALICE, 40, 0).unwrap();
    assert_eq!(pallet.delegator_stake_more(BOB, CAROL, 5, 0), Err(Error::DelegationNotFound));
    assert_eq!(
        pallet.delegator_stake_more(BOB, ALICE, u128::MAX - 539, 0),
        Err(Error::ArithmeticOverflow)
    );
    assert_eq!(pallet.delegator_stake_less(BOB, ALICE, 31, 0), Err(Error::StakeBelowMinimum));
    assert_eq!(pallet.delegator_stake_less(BOB, ALICE, 40, 0), Err(Error::StakeBelowMinimum));
    assert_eq!(pallet.delegator_stake_less(BOB, ALICE, 41, 0), Err(Error::ArithmeticOverflow));
    assert_eq!(pallet.delegator_stake_less(BOB, ALICE, 30, u64::MAX), Err(Error::ArithmeticOverflow));
    // The edge is still there, as it was.
    assert_eq!(pallet.delegation(BOB, ALICE), Some(40));
    assert_eq!(pallet.candidate(ALICE), Some(active(ALICE, 500, 540)));
    assert_eq!(pallet.delegator_stake_less(BOB, ALICE, 30, 0), Ok(40));
    assert_eq!(pallet.delegation(BOB, ALICE), Some(10));
}

#[test]
fn revoke_delegation_removes_the_edge() {
    let mut pallet = Pallet::new(config());
    pallet.join_candidates(ALICE, 500, 0).unwrap();
    pallet.join_candidates(BOB, 500, 0).unwrap();
    pallet.join_delegators(CAROL, ALICE, 40, 0).unwrap();
    pallet.join_delegators(CAROL, BOB, 50, 0).unwrap();
    assert_eq!(pallet.revoke_delegation(CAROL, ALICE, 5), Ok(50));
    assert_eq!(pallet.delegation(CAROL, ALICE), None);
    assert_eq!(pallet.delegation(CAROL, BOB), Some(50));
    assert_eq!(pallet.candidate(ALICE), Some(active(ALICE, 500, 500)));
    assert_eq!(pallet.candidate(BOB), Some(active(BOB, 500, 550)));
    assert_eq!(pallet.locked_after(CAROL, 0), 40);
    assert_eq!(pallet.locked_after(CAROL, 34), 40);
    assert_eq!(pallet.locked_after(CAROL, 35), 0);
    assert_eq!(pallet.delegations_held(CAROL), 1);
    assert_totals(&pallet, &[ALICE, BOB]);
}

#[test]
fn revoke_delegation_fails() {
    let mut pallet = Pallet::new(config());
    assert_eq!(pallet.revoke_delegation(CAROL, ALICE, 5), Err(Error::DelegationNotFound));
    pallet.join_candidates(ALICE, 500, 0).unwrap();
    assert_eq!(pallet.revoke_delegation(CAROL, ALICE, 5), Err(Error::DelegationNotFound));
    pallet.join_delegators(CAROL, ALICE, 40, 0).unwrap();
    assert_eq!(pallet.revoke_delegation(ALICE, CAROL, 5), Err(Error::DelegationNotFound));
    assert_eq!(pallet.revoke_delegation(CAROL, ALICE, u64::MAX - 29), Err(Error::ArithmeticOverflow));
    assert_eq!(pallet.delegation(CAROL, ALICE), Some(40));
    assert_eq!(pallet.candidate(ALICE), Some(active(ALICE, 500, 540)));
}

#[test]
fn leave_delegators_removes_every_edge() {
    let mut pallet = Pallet::new(config());
    pallet.join_candidates(ALICE, 500, 0).unwrap();
    pallet.join_candidates(BOB, 500, 0).unwrap();
    pallet.join_delegators(CAROL, ALICE, 40, 0).unwrap();
    pallet.join_delegators(DAVE, ALICE, 70, 0).unwrap();
    pallet.join_delegators(CAROL, BOB, 50, 0).unwrap();
    assert_eq!(pallet.leave_delegators(CAROL, 5), Ok(50));
    assert_eq!(pallet.delegations_held(CAROL), 0);
    assert!(pallet.delegations_of(CAROL).is_empty());
    assert_eq!(pallet.delegator_stake(CAROL), 0);
    assert_eq!(pallet.candidate(ALICE), Some(active(ALICE, 500, 570)));
    assert_eq!(pallet.candidate(BOB), Some(active(BOB, 500, 500)));
    assert_eq!(pallet.delegation(DAVE, ALICE), Some(70));
    // Locks overlay: the larger of the two revoked amounts is frozen.
    assert_eq!(pallet.effective_lock(CAROL), Some(Lock { amount: 50, unlock_at: 35 }));
    assert_totals(&pallet, &[ALICE, BOB]);
}

#[test]
fn leave_delegators_fails_as_a_whole() {
    let mut pallet = Pallet::new(config());
    assert_eq!(pallet.leave_delegators(CAROL, 5), Err(Error::DelegatorNotFound));
    pallet.join_candidates(ALICE, 500, 0).unwrap();
    pallet.join_candidates(BOB, 500, 0).unwrap();
    assert_eq!(pallet.leave_delegators(ALICE, 5), Err(Error::DelegatorNotFound));
    pallet.join_delegators(CAROL, ALICE, 40, 0).unwrap();
    pallet.join_delegators(CAROL, BOB, 50, 0).unwrap();
    assert_eq!(pallet.leave_delegators(CAROL, u64::MAX), Err(Error::ArithmeticOverflow));
    // None of the edges went.
    assert_eq!(pallet.delegations_held(CAROL), 2);
    assert_eq!(pallet.candidate(ALICE), Some(active(ALICE, 500, 540)));
    assert_eq!(pallet.candidate(BOB), Some(active(BOB, 500, 550)));
    assert_eq!(pallet.effective_lock(CAROL), Some(Lock { amount: 50, unlock_at: 0 }));
}

#[test]
fn two_delegators_in_one_block_both_count() {
    let mut pallet = Pallet::new(config());
    pallet.join_candidates(ALICE, 500, 0).unwrap();
    pallet.join_delegators(BOB, ALICE, 40, 0).unwrap();
    pallet.join_delegators(CAROL, ALICE, 50, 0).unwrap();
    pallet.delegator_stake_more(BOB, ALICE, 5, 9).unwrap();
    pallet.delegator_stake_more(CAROL, ALICE, 7, 9).unwrap();
    assert_eq!(pallet.candidate(ALICE), Some(active(ALICE, 500, 602)));
    let mut other = Pallet::new(config());
    other.join_candidates(ALICE, 500, 0).unwrap();
    other.join_delegators(BOB, ALICE, 40, 0).unwrap();
    other.join_delegators(CAROL, ALICE, 50, 0).unwrap();
    other.delegator_stake_more(CAROL, ALICE, 7, 9).unwrap();
    other.delegator_stake_more(BOB, ALICE, 5, 9).unwrap();
    assert_eq!(other.candidate(ALICE), pallet.candidate(ALICE));
    assert_eq!(other.delegation(BOB, ALICE), pallet.delegation(BOB, ALICE));
    assert_eq!(other.delegation(CAROL, ALICE), pallet.delegation(CAROL, ALICE));
}

#[test]
fn total_stake_is_own_stake_and_delegations() {
    let all = [ALICE, BOB, CAROL];
    let mut pallet = Pallet::new(Config { max_delegations_per_delegator: 3, ..config() });
    // A fixed walk through joins, delegations, changes, revocations and
    // exits, some of them rejected.
    let mut seed: u64 = 0x2545_f491_4f6c_dd1d;
    for step in 0u64..400 {
        seed ^= seed << 13;
        seed ^= seed >> 7;
        seed ^= seed << 17;
        let who = 1 + (seed >> 8) % 5;
        let target = all[((seed >> 16) % 3) as usize];
        let amount = ((seed >> 24) % 600) as u128;
        let round = (step / 20) as u32;
        match seed % 11 {
            0 => drop(pallet.join_candidates(target, amount, step)),
            1 => drop(pallet.candidate_stake_more(target, amount, step)),
            2 => drop(pallet.candidate_stake_less(target, amount, step)),
            3 => drop(pallet.join_delegators(who, target, amount, step)),
            4 => drop(pallet.delegate_another_candidate(who, target, amount, step)),
            5 => drop(pallet.delegator_stake_more(who, target, amount, step)),
            6 => drop(pallet.delegator_stake_less(who, target, amount, step)),
            7 => drop(pallet.revoke_delegation(who, target, step)),
            8 => drop(pallet.leave_delegators(who, step)),
            9 => drop(pallet.init_leave_candidates(target, round)),
            _ => drop(pallet.execute_leave_candidates(target, round, step)),
        }
        assert_totals(&pallet, &all);
        for delegator in 1..=5u64 {
            let edges = pallet.delegations_of(delegator);
            assert!(edges.len() <= 3);
            assert_eq!(edges.len(), pallet.delegations_held(delegator));
            let staked: u128 = edges.iter().map(|e| e.amount).sum();
            assert_eq!(staked, pallet.delegator_stake(delegator));
        }
    }
    assert!(pallet.candidate_count() <= 3);
}

#[test]
fn selection_takes_the_greatest_total_stake() {
    let mut pallet = Pallet::new(config());
    pallet.join_candidates(ALICE, 300, 0).unwrap();
    pallet.join_candidates(BOB, 500, 0).unwrap();
    pallet.join_candidates(CAROL, 400, 0).unwrap();
    pallet.join_delegators(DAVE, ALICE, 250, 0).unwrap();
    assert_eq!(pallet.select_candidates(5), vec![ALICE, BOB, CAROL]);
    assert_eq!(pallet.select_candidates(3), vec![ALICE, BOB, CAROL]);
    assert_eq!(pallet.select_candidates(2), vec![ALICE, BOB]);
    assert_eq!(pallet.select_candidates(1), vec![ALICE]);
    assert!(pallet.select_candidates(0).is_empty());
}

#[test]
fn selection_determinism() {
    let mut pallet = Pallet::new(config());
    pallet.join_candidates(CAROL, 500, 0).unwrap();
    pallet.join_candidates(BOB, 500, 0).unwrap();
    pallet.join_candidates(ALICE, 400, 0).unwrap();
    // Equal stake: the smaller account is selected first, whatever the
    // order of joining.
    assert_eq!(pallet.select_candidates(1), vec![BOB]);
    assert_eq!(pallet.select_candidates(2), vec![BOB, CAROL]);
    assert_eq!(pallet.select_candidates(3), vec![BOB, CAROL, ALICE]);
    let mut other = Pallet::new(config());
    other.join_candidates(ALICE, 400, 0).unwrap();
    other.join_candidates(BOB, 500, 0).unwrap();
    other.join_candidates(CAROL, 500, 0).unwrap();
    assert_eq!(other.select_candidates(1), vec![BOB]);
    assert_eq!(other.select_candidates(2), pallet.select_candidates(2));
    assert_eq!(pallet.select_candidates(2), pallet.select_candidates(2));
}

#[test]
fn selection_passes_over_leaving_candidates() {
    let mut pallet = Pallet::new(config());
    pallet.join_candidates(ALICE, 500, 0).unwrap();
    pallet.join_candidates(BOB, 400, 0).unwrap();
    pallet.join_candidates(CAROL, 300, 0).unwrap();
    pallet.init_leave_candidates(ALICE, 0).unwrap();
    assert_eq!(pallet.select_candidates(2), vec![BOB, CAROL]);
    // It remains counted until it has left.
    assert_eq!(pallet.candidate_count(), 3);
    assert_eq!(pallet.candidate(ALICE).unwrap().total_stake, 500);
}

#[test]
fn store_and_increment() {
    let mut pallet = Pallet::new(config());
    assert_eq!(pallet.cause_error(), Err(Error::NoneValue));
    assert_eq!(pallet.something(), None);
    assert_eq!(pallet.do_something(ALICE, 41), Event::SomethingStored(41, ALICE));
    assert_eq!(pallet.something(), Some(41));
    assert_eq!(pallet.cause_error(), Ok(()));
    assert_eq!(pallet.something(), Some(42));
    assert_eq!(pallet.do_something(BOB, u32::MAX), Event::SomethingStored(u32::MAX, BOB));
    assert_eq!(pallet.cause_error(), Err(Error::StorageOverflow));
    assert_eq!(pallet.something(), Some(u32::MAX));
}
