//! Every operation keeps the state together.
//!
//! For each operation it is shown here that the state it leaves holds
//! together where the state it found did. In particular the total stake of
//! every candidate stays the sum of its own stake and of what is delegated
//! to it.

use vstd::prelude::*;
use crate::candidates::{
    candidate_of, ids_unique, is_candidate, lemma_position, position, CandidateState,
    CandidateStatus,
};
use crate::delegations::{
    backing, counting, delegated_by, delegated_to, delegation_count, edges_beside, edges_of,
    edges_to, has_delegation, is_edge, lemma_filter_edges, lemma_total_covers,
    lemma_total_filter, lemma_total_filter_split, lemma_total_grows, lemma_total_of_none,
    lemma_total_push, lemma_total_remove, lemma_total_update, pairs_unique, staking, total,
    Delegation,
};
use crate::error::Error;
use crate::ledger::{
    lemma_release_settles, locks_in, locks_wf, with_lock, with_release, Locks,
};
use crate::lock::{lemma_overlay_is_schedule, Lock};
use crate::state::{
    after_exit, candidate_stake_less_spec, candidate_stake_more_spec, delegate_another_candidate_spec,
    delegated_between, delegation_error, delegator_stake_less_spec, delegator_stake_more_spec,
    edge_position, execute_leave_candidates_spec, init_leave_candidates_spec,
    join_candidates_spec, join_delegators_spec, leave_delegators_spec, linking,
    revoke_delegation_spec, state_wf, try_unlock_spec, with_amount, with_backing,
    with_delegation, with_delegation_changed, with_locks_for, with_self_stake, Config,
    StakingState,
};
use crate::{AccountId, Balance, BlockNumber, RoundIndex};

verus! {

/// Placing a lock keeps the locks well formed.
pub proof fn lemma_with_lock_wf(locks: Locks, account: AccountId, lock: Lock)
    requires
        locks_wf(locks),
    ensures
        locks_wf(with_lock(locks, account, lock)),
{
    lemma_overlay_is_schedule(locks_in(locks, account), lock);
}

/// Releasing what is due keeps the locks well formed.
pub proof fn lemma_with_release_wf(locks: Locks, account: AccountId, now: BlockNumber)
    requires
        locks_wf(locks),
    ensures
        locks_wf(with_release(locks, account, now)),
{
    lemma_release_settles(locks_in(locks, account), now);
}

/// Placing a lock for each of a row of edges keeps the locks well formed.
pub proof fn lemma_with_locks_for_wf(locks: Locks, edges: Seq<Delegation>, end: BlockNumber)
    requires
        locks_wf(locks),
    ensures
        locks_wf(with_locks_for(locks, edges, end)),
    decreases edges.len(),
{
    if edges.len() > 0 {
        lemma_with_locks_for_wf(locks, edges.drop_last(), end);
        lemma_with_lock_wf(
            with_locks_for(locks, edges.drop_last(), end),
            edges.last().delegator,
            Lock { amount: edges.last().amount, unlock_at: end },
        );
    }
}

/// Replacing what the table records of a candidate, under the same
/// account, leaves every account where it stood.
pub proof fn lemma_candidate_replaced(cs: Seq<CandidateState>, at: int, cand: CandidateState)
    requires
        ids_unique(cs),
        0 <= at < cs.len(),
        cand.id == cs[at].id,
    ensures
        ids_unique(cs.update(at, cand)),
        forall|id: AccountId|
            is_candidate(cs, id) == #[trigger] is_candidate(cs.update(at, cand), id),
        forall|id: AccountId|
            is_candidate(cs, id) ==> #[trigger] position(cs.update(at, cand), id) == position(
                cs,
                id,
            ),
{
    let after = cs.update(at, cand);
    assert forall|i: int, j: int| 0 <= i < j < after.len() implies (#[trigger] after[i]).id != (
    #[trigger] after[j]).id by {
        assert(after[i].id == cs[i].id && after[j].id == cs[j].id);
    }
    assert forall|id: AccountId| is_candidate(cs, id) == #[trigger] is_candidate(after, id) by {
        if is_candidate(cs, id) {
            let i = position(cs, id);
            assert(after[i].id == id);
        }
        if is_candidate(after, id) {
            let i = position(after, id);
            assert(cs[i].id == id);
        }
    }
    assert forall|id: AccountId| is_candidate(cs, id) implies #[trigger] position(after, id)
        == position(cs, id) by {
        let i = position(cs, id);
        assert(after[i].id == id);
        lemma_position(after, i);
    }
}

/// In a table without repeated pairs an edge stands where its pair is
/// found.
pub proof fn lemma_edge_position(ds: Seq<Delegation>, k: int)
    requires
        pairs_unique(ds),
        0 <= k < ds.len(),
    ensures
        has_delegation(ds, ds[k].delegator, ds[k].candidate),
        edge_position(ds, ds[k].delegator, ds[k].candidate) == k,
{
    let p = edge_position(ds, ds[k].delegator, ds[k].candidate);
    assert(is_edge(ds[k], ds[k].delegator, ds[k].candidate));
    if p < k {
        assert(!is_edge(ds[p], ds[k].delegator, ds[k].candidate));
    } else if k < p {
        assert(!is_edge(ds[k], ds[p].delegator, ds[p].candidate));
    }
}

/// The total stake of a candidate covers each amount delegated to it.
pub proof fn lemma_total_stake_covers(s: StakingState, c: Config, k: int)
    requires
        state_wf(s, c),
        0 <= k < s.delegations.len(),
    ensures
        is_candidate(s.candidates, s.delegations[k].candidate),
        candidate_of(s.candidates, s.delegations[k].candidate).total_stake
            >= s.delegations[k].amount,
        delegated_by(s.delegations, s.delegations[k].delegator) >= s.delegations[k].amount,
        delegation_count(s.delegations, s.delegations[k].delegator) >= 1,
{
    let e = s.delegations[k];
    let at = position(s.candidates, e.candidate);
    assert(s.candidates[at].total_stake == s.candidates[at].self_stake + delegated_to(
        s.delegations,
        s.candidates[at].id,
    ));
    lemma_total_covers(s.delegations, backing(e.candidate), k);
    lemma_total_covers(s.delegations, staking(e.delegator), k);
    lemma_total_covers(s.delegations, counting(e.delegator), k);
}

/// In a state that holds together, the total stake of a candidate is its
/// own stake and the sum of all that is delegated to it.
pub proof fn lemma_total_stake_is_sum(s: StakingState, c: Config, id: AccountId)
    requires
        state_wf(s, c),
        is_candidate(s.candidates, id),
    ensures
        candidate_of(s.candidates, id).total_stake == candidate_of(s.candidates, id).self_stake
            + delegated_to(s.delegations, id),
        delegated_to(s.delegations, id) >= 0,
{
    let at = position(s.candidates, id);
    assert(s.candidates[at].id == id);
    lemma_total_grows(s.delegations, backing(id), 0);
}

/// A delegator that backs as many candidates as allowed cannot back one
/// more: the attempt is rejected for that reason, whatever the amount above
/// the minimum, and changes nothing.
pub proof fn lemma_delegator_cap(
    s: StakingState,
    c: Config,
    delegator: AccountId,
    candidate: AccountId,
    amount: Balance,
    now: BlockNumber,
)
    requires
        state_wf(s, c),
        is_candidate(s.candidates, candidate),
        amount >= c.min_delegator_stake,
        delegation_count(s.delegations, delegator) > 0,
        delegation_count(s.delegations, delegator) >= c.max_delegations_per_delegator,
    ensures
        delegate_another_candidate_spec(s, c, delegator, candidate, amount, now) == Err::<
            StakingState,
            Error,
        >(Error::TooManyDelegations),
        join_delegators_spec(s, c, delegator, candidate, amount, now) == Err::<
            StakingState,
            Error,
        >(Error::TooManyDelegations),
{
}

/// Joining the candidates keeps the state together.
pub proof fn lemma_join_candidates_wf(
    s: StakingState,
    c: Config,
    id: AccountId,
    amount: Balance,
    now: BlockNumber,
)
    requires
        state_wf(s, c),
        join_candidates_spec(s, c, id, amount, now) is Ok,
    ensures
        state_wf(join_candidates_spec(s, c, id, amount, now).unwrap(), c),
{
    let after = join_candidates_spec(s, c, id, amount, now).unwrap();
    lemma_with_lock_wf(s.locks, id, Lock { amount, unlock_at: now });
    assert forall|k: int| 0 <= k < after.delegations.len() implies is_candidate(
        after.candidates,
        (#[trigger] after.delegations[k]).candidate,
    ) by {
        let i = position(s.candidates, s.delegations[k].candidate);
        assert(after.candidates[i].id == s.delegations[k].candidate);
    }
    assert forall|i: int| 0 <= i < after.candidates.len() implies (
    #[trigger] after.candidates[i]).total_stake == after.candidates[i].self_stake + delegated_to(
        after.delegations,
        after.candidates[i].id,
    ) by {
        if i < s.candidates.len() {
            assert(after.candidates[i] == s.candidates[i]);
        } else {
            assert forall|k: int| 0 <= k < s.delegations.len() implies backing(id)(
                #[trigger] s.delegations[k],
            ) == 0 by {
                assert(is_candidate(s.candidates, s.delegations[k].candidate));
            }
            lemma_total_of_none(s.delegations, backing(id));
        }
    }
    assert forall|i: int, j: int| 0 <= i < j < after.candidates.len() implies (
    #[trigger] after.candidates[i]).id != (#[trigger] after.candidates[j]).id by {
        if j < s.candidates.len() {
            assert(after.candidates[i] == s.candidates[i] && after.candidates[j]
                == s.candidates[j]);
        } else {
            assert(after.candidates[i] == s.candidates[i]);
        }
    }
    assert forall|i: int| 0 <= i < after.candidates.len() implies (
    #[trigger] after.candidates[i]).status != CandidateStatus::Left by {
        if i < s.candidates.len() {
            assert(after.candidates[i] == s.candidates[i]);
        }
    }
}

/// Replacing what the table records of a candidate, where its total stake
/// stays the sum that it should be, keeps the state together.
pub proof fn lemma_candidate_changed_wf(s: StakingState, c: Config, at: int, cand: CandidateState)
    requires
        state_wf(s, c),
        0 <= at < s.candidates.len(),
        cand.id == s.candidates[at].id,
        cand.status != CandidateStatus::Left,
        cand.total_stake == cand.self_stake + delegated_to(s.delegations, cand.id),
    ensures
        state_wf(StakingState { candidates: s.candidates.update(at, cand), ..s }, c),
{
    let after = StakingState { candidates: s.candidates.update(at, cand), ..s };
    lemma_candidate_replaced(s.candidates, at, cand);
    assert forall|i: int| 0 <= i < after.candidates.len() implies (
    #[trigger] after.candidates[i]).total_stake == after.candidates[i].self_stake + delegated_to(
        after.delegations,
        after.candidates[i].id,
    ) && after.candidates[i].status != CandidateStatus::Left by {
        if i != at {
            assert(after.candidates[i] == s.candidates[i]);
        }
    }
}

/// Placing a lock keeps the state together.
pub proof fn lemma_lock_placed_wf(s: StakingState, c: Config, account: AccountId, lock: Lock)
    requires
        state_wf(s, c),
    ensures
        state_wf(StakingState { locks: with_lock(s.locks, account, lock), ..s }, c),
{
    lemma_with_lock_wf(s.locks, account, lock);
}

/// Adding to a candidate's own stake keeps the state together.
pub proof fn lemma_candidate_stake_more_wf(
    s: StakingState,
    c: Config,
    id: AccountId,
    delta: Balance,
    now: BlockNumber,
)
    requires
        state_wf(s, c),
        candidate_stake_more_spec(s, c, id, delta, now) is Ok,
    ensures
        state_wf(candidate_stake_more_spec(s, c, id, delta, now).unwrap(), c),
{
    let at = position(s.candidates, id);
    let cand = with_self_stake(s.candidates[at], delta as int);
    lemma_candidate_changed_wf(s, c, at, cand);
    lemma_lock_placed_wf(
        StakingState { candidates: s.candidates.update(at, cand), ..s },
        c,
        id,
        Lock { amount: delta, unlock_at: now },
    );
}

/// Withdrawing from a candidate's own stake keeps the state together.
pub proof fn lemma_candidate_stake_less_wf(
    s: StakingState,
    c: Config,
    id: AccountId,
    delta: Balance,
    now: BlockNumber,
)
    requires
        state_wf(s, c),
        candidate_stake_less_spec(s, c, id, delta, now) is Ok,
    ensures
        state_wf(candidate_stake_less_spec(s, c, id, delta, now).unwrap(), c),
{
    let at = position(s.candidates, id);
    let cand = with_self_stake(s.candidates[at], -(delta as int));
    lemma_total_grows(s.delegations, backing(id), 0);
    lemma_candidate_changed_wf(s, c, at, cand);
    lemma_lock_placed_wf(
        StakingState { candidates: s.candidates.update(at, cand), ..s },
        c,
        id,
        Lock { amount: delta, unlock_at: crate::state::lock_end(c, now) as BlockNumber },
    );
}

/// Asking to leave keeps the state together.
pub proof fn lemma_init_leave_candidates_wf(
    s: StakingState,
    c: Config,
    id: AccountId,
    round: RoundIndex,
)
    requires
        state_wf(s, c),
        init_leave_candidates_spec(s, c, id, round) is Ok,
    ensures
        state_wf(init_leave_candidates_spec(s, c, id, round).unwrap(), c),
{
    let at = position(s.candidates, id);
    let cand = CandidateState {
        status: CandidateStatus::Leaving((round + c.exit_queue_delay) as RoundIndex),
        ..s.candidates[at]
    };
    lemma_candidate_changed_wf(s, c, at, cand);
}

/// Releasing the locks that are due keeps the state together.
pub proof fn lemma_try_unlock_wf(s: StakingState, c: Config, account: AccountId, now: BlockNumber)
    requires
        state_wf(s, c),
        try_unlock_spec(s, account, now) is Ok,
    ensures
        state_wf(try_unlock_spec(s, account, now).unwrap(), c),
{
    lemma_with_release_wf(s.locks, account, now);
}

/// Beginning to back a candidate keeps the state together.
pub proof fn lemma_with_delegation_wf(
    s: StakingState,
    c: Config,
    delegator: AccountId,
    candidate: AccountId,
    amount: Balance,
    now: BlockNumber,
    must_exist: bool,
)
    requires
        state_wf(s, c),
        delegation_error(s, c, delegator, candidate, amount, must_exist) is None,
    ensures
        state_wf(with_delegation(s, delegator, candidate, amount, now), c),
{
    let after = with_delegation(s, delegator, candidate, amount, now);
    let at = position(s.candidates, candidate);
    let edge = Delegation { delegator, candidate, amount };
    lemma_candidate_replaced(s.candidates, at, with_backing(s.candidates[at], amount as int));
    lemma_with_lock_wf(s.locks, delegator, Lock { amount, unlock_at: now });
    assert forall|i: int, j: int| 0 <= i < j < after.delegations.len() implies !is_edge(
        #[trigger] after.delegations[i],
        (#[trigger] after.delegations[j]).delegator,
        after.delegations[j].candidate,
    ) by {
        assert(after.delegations[i] == s.delegations[i]);
        if j < s.delegations.len() {
            assert(after.delegations[j] == s.delegations[j]);
        }
    }
    assert forall|k: int| 0 <= k < after.delegations.len() implies is_candidate(
        after.candidates,
        (#[trigger] after.delegations[k]).candidate,
    ) by {
        if k < s.delegations.len() {
            assert(after.delegations[k] == s.delegations[k]);
        }
    }
    assert forall|i: int| 0 <= i < after.candidates.len() implies (
    #[trigger] after.candidates[i]).total_stake == after.candidates[i].self_stake + delegated_to(
        after.delegations,
        after.candidates[i].id,
    ) && after.candidates[i].status != CandidateStatus::Left by {
        lemma_total_push(s.delegations, edge, backing(after.candidates[i].id));
        if i != at {
            assert(after.candidates[i] == s.candidates[i]);
            assert(s.candidates[i].id != s.candidates[at].id);
        }
    }
    assert forall|d: AccountId| #[trigger]
        delegation_count(after.delegations, d) <= c.max_delegations_per_delegator by {
        assert(delegation_count(s.delegations, d) <= c.max_delegations_per_delegator);
        lemma_total_push(s.delegations, edge, counting(d));
    }
    assert forall|d: AccountId| #[trigger] delegated_by(after.delegations, d) <= Balance::MAX by {
        assert(delegated_by(s.delegations, d) <= Balance::MAX);
        lemma_total_push(s.delegations, edge, staking(d));
    }
}

/// Changing what a delegator has delegated to a candidate keeps the state
/// together, where the amounts stay amounts.
pub proof fn lemma_with_delegation_changed_wf(
    s: StakingState,
    c: Config,
    delegator: AccountId,
    candidate: AccountId,
    change: int,
)
    requires
        state_wf(s, c),
        has_delegation(s.delegations, delegator, candidate),
        0 <= s.delegations[edge_position(s.delegations, delegator, candidate)].amount + change,
        candidate_of(s.candidates, candidate).total_stake + change <= Balance::MAX,
        delegated_by(s.delegations, delegator) + change <= Balance::MAX,
    ensures
        state_wf(with_delegation_changed(s, delegator, candidate, change), c),
{
    let after = with_delegation_changed(s, delegator, candidate, change);
    let k = edge_position(s.delegations, delegator, candidate);
    let at = position(s.candidates, candidate);
    let edge = with_amount(s.delegations[k], change);
    lemma_total_stake_covers(s, c, k);
    lemma_candidate_replaced(s.candidates, at, with_backing(s.candidates[at], change));
    assert forall|i: int, j: int| 0 <= i < j < after.delegations.len() implies !is_edge(
        #[trigger] after.delegations[i],
        (#[trigger] after.delegations[j]).delegator,
        after.delegations[j].candidate,
    ) by {
        assert(!is_edge(s.delegations[i], s.delegations[j].delegator, s.delegations[j].candidate));
    }
    assert forall|j: int| 0 <= j < after.delegations.len() implies is_candidate(
        after.candidates,
        (#[trigger] after.delegations[j]).candidate,
    ) by {
        assert(after.delegations[j].candidate == s.delegations[j].candidate);
    }
    assert forall|i: int| 0 <= i < after.candidates.len() implies (
    #[trigger] after.candidates[i]).total_stake == after.candidates[i].self_stake + delegated_to(
        after.delegations,
        after.candidates[i].id,
    ) && after.candidates[i].status != CandidateStatus::Left by {
        lemma_total_update(s.delegations, k, edge, backing(after.candidates[i].id));
        if i != at {
            assert(after.candidates[i] == s.candidates[i]);
            assert(s.candidates[i].id != s.candidates[at].id);
        }
    }
    assert forall|d: AccountId| #[trigger]
        delegation_count(after.delegations, d) <= c.max_delegations_per_delegator by {
        assert(delegation_count(s.delegations, d) <= c.max_delegations_per_delegator);
        lemma_total_update(s.delegations, k, edge, counting(d));
    }
    assert forall|d: AccountId| #[trigger] delegated_by(after.delegations, d) <= Balance::MAX by {
        assert(delegated_by(s.delegations, d) <= Balance::MAX);
        lemma_total_update(s.delegations, k, edge, staking(d));
    }
}

/// Adding to a delegation keeps the state together.
pub proof fn lemma_delegator_stake_more_wf(
    s: StakingState,
    c: Config,
    delegator: AccountId,
    candidate: AccountId,
    delta: Balance,
    now: BlockNumber,
)
    requires
        state_wf(s, c),
        delegator_stake_more_spec(s, c, delegator, candidate, delta, now) is Ok,
    ensures
        state_wf(delegator_stake_more_spec(s, c, delegator, candidate, delta, now).unwrap(), c),
{
    lemma_with_delegation_changed_wf(s, c, delegator, candidate, delta as int);
    lemma_lock_placed_wf(
        with_delegation_changed(s, delegator, candidate, delta as int),
        c,
        delegator,
        Lock { amount: delta, unlock_at: now },
    );
}

/// Two delegators that add to what they have delegated to the same
/// candidate are both counted, whoever comes first: where the one can follow
/// the other, the other can follow the one, the state is the same either
/// way, and the candidate's total stake has grown by both amounts.
pub proof fn lemma_stake_more_commutes(
    s: StakingState,
    c: Config,
    first: AccountId,
    second: AccountId,
    candidate: AccountId,
    a1: Balance,
    a2: Balance,
    now: BlockNumber,
)
    requires
        state_wf(s, c),
        first != second,
        delegator_stake_more_spec(s, c, first, candidate, a1, now) is Ok,
        delegator_stake_more_spec(
            delegator_stake_more_spec(s, c, first, candidate, a1, now).unwrap(),
            c,
            second,
            candidate,
            a2,
            now,
        ) is Ok,
    ensures
        delegator_stake_more_spec(s, c, second, candidate, a2, now) is Ok,
        delegator_stake_more_spec(
            delegator_stake_more_spec(s, c, second, candidate, a2, now).unwrap(),
            c,
            first,
            candidate,
            a1,
            now,
        ) == delegator_stake_more_spec(
            delegator_stake_more_spec(s, c, first, candidate, a1, now).unwrap(),
            c,
            second,
            candidate,
            a2,
            now,
        ),
        candidate_of(
            delegator_stake_more_spec(
                delegator_stake_more_spec(s, c, first, candidate, a1, now).unwrap(),
                c,
                second,
                candidate,
                a2,
                now,
            ).unwrap().candidates,
            candidate,
        ).total_stake == candidate_of(s.candidates, candidate).total_stake + a1 + a2,
{
    let s1 = delegator_stake_more_spec(s, c, first, candidate, a1, now).unwrap();
    let s12 = delegator_stake_more_spec(s1, c, second, candidate, a2, now).unwrap();
    lemma_delegator_stake_more_wf(s, c, first, candidate, a1, now);
    let k1 = edge_position(s.delegations, first, candidate);
    let at = position(s.candidates, candidate);
    lemma_total_stake_covers(s, c, k1);
    lemma_candidate_replaced(s.candidates, at, with_backing(s.candidates[at], a1 as int));
    lemma_position(s.candidates, at);
    // The second delegator's edge is where it was, and so is its stake.
    let k2 = edge_position(s1.delegations, second, candidate);
    assert(s.delegations[k2] == s1.delegations[k2]);
    assert(is_edge(s.delegations[k2], second, candidate));
    lemma_edge_position(s.delegations, k2);
    lemma_edge_position(s1.delegations, k2);
    lemma_total_update(
        s.delegations,
        k1,
        with_amount(s.delegations[k1], a1 as int),
        staking(second),
    );
    assert(delegated_by(s1.delegations, second) == delegated_by(s.delegations, second));
    lemma_total_grows(s.delegations, backing(candidate), 0);
    let s2 = delegator_stake_more_spec(s, c, second, candidate, a2, now).unwrap();
    lemma_delegator_stake_more_wf(s, c, second, candidate, a2, now);
    lemma_candidate_replaced(s.candidates, at, with_backing(s.candidates[at], a2 as int));
    assert(s2.delegations[k1] == s.delegations[k1]);
    lemma_edge_position(s2.delegations, k1);
    lemma_total_update(
        s.delegations,
        k2,
        with_amount(s.delegations[k2], a2 as int),
        staking(first),
    );
    assert(delegated_by(s2.delegations, first) == delegated_by(s.delegations, first));
    let s21 = delegator_stake_more_spec(s2, c, first, candidate, a1, now).unwrap();
    assert(s21.candidates =~= s12.candidates);
    assert(s21.delegations =~= s12.delegations);
    assert(s21.locks =~= s12.locks);
    lemma_candidate_replaced(s1.candidates, at, with_backing(s1.candidates[at], a2 as int));
    lemma_position(s12.candidates, at);
}

/// Withdrawing from a delegation keeps the state together.
pub proof fn lemma_delegator_stake_less_wf(
    s: StakingState,
    c: Config,
    delegator: AccountId,
    candidate: AccountId,
    delta: Balance,
    now: BlockNumber,
)
    requires
        state_wf(s, c),
        delegator_stake_less_spec(s, c, delegator, candidate, delta, now) is Ok,
    ensures
        state_wf(delegator_stake_less_spec(s, c, delegator, candidate, delta, now).unwrap(), c),
{
    let k = edge_position(s.delegations, delegator, candidate);
    lemma_total_stake_covers(s, c, k);
    lemma_position(s.candidates, position(s.candidates, candidate));
    lemma_with_delegation_changed_wf(s, c, delegator, candidate, -(delta as int));
    lemma_lock_placed_wf(
        with_delegation_changed(s, delegator, candidate, -(delta as int)),
        c,
        delegator,
        Lock { amount: delta, unlock_at: crate::state::lock_end(c, now) as BlockNumber },
    );
}

/// Ceasing to back a candidate keeps the state together.
pub proof fn lemma_revoke_delegation_wf(
    s: StakingState,
    c: Config,
    delegator: AccountId,
    candidate: AccountId,
    now: BlockNumber,
)
    requires
        state_wf(s, c),
        revoke_delegation_spec(s, c, delegator, candidate, now) is Ok,
    ensures
        state_wf(revoke_delegation_spec(s, c, delegator, candidate, now).unwrap(), c),
{
    let after = revoke_delegation_spec(s, c, delegator, candidate, now).unwrap();
    let k = edge_position(s.delegations, delegator, candidate);
    let at = position(s.candidates, candidate);
    let edge = s.delegations[k];
    lemma_total_stake_covers(s, c, k);
    lemma_candidate_replaced(
        s.candidates,
        at,
        with_backing(s.candidates[at], -(edge.amount as int)),
    );
    lemma_with_lock_wf(
        s.locks,
        delegator,
        Lock { amount: edge.amount, unlock_at: crate::state::lock_end(c, now) as BlockNumber },
    );
    assert forall|i: int, j: int| 0 <= i < j < after.delegations.len() implies !is_edge(
        #[trigger] after.delegations[i],
        (#[trigger] after.delegations[j]).delegator,
        after.delegations[j].candidate,
    ) by {
        let from_i = if i < k { i } else { i + 1 };
        let from_j = if j < k { j } else { j + 1 };
        assert(!is_edge(
            s.delegations[from_i],
            s.delegations[from_j].delegator,
            s.delegations[from_j].candidate,
        ));
    }
    assert forall|j: int| 0 <= j < after.delegations.len() implies is_candidate(
        after.candidates,
        (#[trigger] after.delegations[j]).candidate,
    ) by {
        let from_j = if j < k { j } else { j + 1 };
        assert(after.delegations[j] == s.delegations[from_j]);
    }
    assert forall|i: int| 0 <= i < after.candidates.len() implies (
    #[trigger] after.candidates[i]).total_stake == after.candidates[i].self_stake + delegated_to(
        after.delegations,
        after.candidates[i].id,
    ) && after.candidates[i].status != CandidateStatus::Left by {
        lemma_total_remove(s.delegations, k, backing(after.candidates[i].id));
        if i != at {
            assert(after.candidates[i] == s.candidates[i]);
            assert(s.candidates[i].id != s.candidates[at].id);
        }
    }
    assert forall|d: AccountId| #[trigger]
        delegation_count(after.delegations, d) <= c.max_delegations_per_delegator by {
        assert(delegation_count(s.delegations, d) <= c.max_delegations_per_delegator);
        lemma_total_remove(s.delegations, k, counting(d));
    }
    assert forall|d: AccountId| #[trigger] delegated_by(after.delegations, d) <= Balance::MAX by {
        assert(delegated_by(s.delegations, d) <= Balance::MAX);
        lemma_total_remove(s.delegations, k, staking(d));
    }
}

/// A candidate's leaving keeps the state together.
pub proof fn lemma_after_exit_wf(s: StakingState, c: Config, id: AccountId, end: BlockNumber)
    requires
        state_wf(s, c),
        is_candidate(s.candidates, id),
    ensures
        state_wf(after_exit(s, id, end), c),
{
    let after = after_exit(s, id, end);
    let at = position(s.candidates, id);
    let keep = |e: Delegation| e.candidate != id;
    lemma_filter_edges(s.delegations, keep);
    lemma_with_lock_wf(s.locks, id, Lock { amount: s.candidates[at].self_stake, unlock_at: end });
    lemma_with_locks_for_wf(
        with_lock(s.locks, id, Lock { amount: s.candidates[at].self_stake, unlock_at: end }),
        edges_to(s.delegations, id),
        end,
    );
    assert forall|i: int, j: int| 0 <= i < j < after.candidates.len() implies (
    #[trigger] after.candidates[i]).id != (#[trigger] after.candidates[j]).id by {
        let from_i = if i < at { i } else { i + 1 };
        let from_j = if j < at { j } else { j + 1 };
        assert(s.candidates[from_i].id != s.candidates[from_j].id);
    }
    assert forall|j: int| 0 <= j < after.delegations.len() implies is_candidate(
        after.candidates,
        (#[trigger] after.delegations[j]).candidate,
    ) by {
        let e = after.delegations[j];
        assert(s.delegations.contains(e));
        let k = choose|k: int| 0 <= k < s.delegations.len() && s.delegations[k] == e;
        assert(is_candidate(s.candidates, s.delegations[k].candidate));
        let i = position(s.candidates, e.candidate);
        let to = if i < at { i } else { i - 1 };
        assert(after.candidates[to].id == e.candidate);
    }
    assert forall|i: int| 0 <= i < after.candidates.len() implies (
    #[trigger] after.candidates[i]).total_stake == after.candidates[i].self_stake + delegated_to(
        after.delegations,
        after.candidates[i].id,
    ) && after.candidates[i].status != CandidateStatus::Left by {
        let from_i = if i < at { i } else { i + 1 };
        assert(after.candidates[i] == s.candidates[from_i]);
        if from_i < at {
            assert(s.candidates[from_i].id != s.candidates[at].id);
        } else {
            assert(s.candidates[at].id != s.candidates[from_i].id);
        }
        lemma_total_filter(s.delegations, keep, backing(after.candidates[i].id));
    }
    assert forall|d: AccountId| #[trigger]
        delegation_count(after.delegations, d) <= c.max_delegations_per_delegator by {
        assert(delegation_count(s.delegations, d) <= c.max_delegations_per_delegator);
        lemma_total_filter(s.delegations, keep, counting(d));
    }
    assert forall|d: AccountId| #[trigger] delegated_by(after.delegations, d) <= Balance::MAX by {
        assert(delegated_by(s.delegations, d) <= Balance::MAX);
        lemma_total_filter(s.delegations, keep, staking(d));
    }
}

/// A candidate's leaving when its time has come keeps the state together.
pub proof fn lemma_execute_leave_candidates_wf(
    s: StakingState,
    c: Config,
    id: AccountId,
    round: RoundIndex,
    now: BlockNumber,
)
    requires
        state_wf(s, c),
        execute_leave_candidates_spec(s, c, id, round, now) is Ok,
    ensures
        state_wf(execute_leave_candidates_spec(s, c, id, round, now).unwrap(), c),
{
    lemma_after_exit_wf(s, c, id, crate::state::lock_end(c, now) as BlockNumber);
}

/// What a delegator has delegated to a candidate is part of what is
/// delegated to that candidate; without the delegator's edges the rest is
/// delegated to it.
pub proof fn lemma_delegated_between(ds: Seq<Delegation>, delegator: AccountId, candidate: AccountId)
    ensures
        0 <= delegated_between(ds, delegator, candidate) <= delegated_to(ds, candidate),
        delegated_to(edges_beside(ds, delegator), candidate) == delegated_to(ds, candidate)
            - delegated_between(ds, delegator, candidate),
{
    let keep = |e: Delegation| e.delegator != delegator;
    lemma_total_filter_split(ds, keep, backing(candidate), linking(delegator, candidate));
    lemma_total_filter(ds, keep, backing(candidate));
    lemma_total_grows(ds, linking(delegator, candidate), 0);
}

/// A delegator's leaving keeps the state together.
pub proof fn lemma_leave_delegators_wf(
    s: StakingState,
    c: Config,
    delegator: AccountId,
    now: BlockNumber,
)
    requires
        state_wf(s, c),
        leave_delegators_spec(s, c, delegator, now) is Ok,
    ensures
        state_wf(leave_delegators_spec(s, c, delegator, now).unwrap(), c),
{
    let after = leave_delegators_spec(s, c, delegator, now).unwrap();
    let keep = |e: Delegation| e.delegator != delegator;
    lemma_filter_edges(s.delegations, keep);
    lemma_with_locks_for_wf(
        s.locks,
        edges_of(s.delegations, delegator),
        crate::state::lock_end(c, now) as BlockNumber,
    );
    assert forall|i: int, j: int| 0 <= i < j < after.candidates.len() implies (
    #[trigger] after.candidates[i]).id != (#[trigger] after.candidates[j]).id by {
        assert(s.candidates[i].id != s.candidates[j].id);
    }
    assert forall|j: int| 0 <= j < after.delegations.len() implies is_candidate(
        after.candidates,
        (#[trigger] after.delegations[j]).candidate,
    ) by {
        let e = after.delegations[j];
        assert(s.delegations.contains(e));
        let k = choose|k: int| 0 <= k < s.delegations.len() && s.delegations[k] == e;
        assert(is_candidate(s.candidates, s.delegations[k].candidate));
        let i = position(s.candidates, e.candidate);
        assert(after.candidates[i].id == e.candidate);
    }
    assert forall|i: int| 0 <= i < after.candidates.len() implies (
    #[trigger] after.candidates[i]).total_stake == after.candidates[i].self_stake + delegated_to(
        after.delegations,
        after.candidates[i].id,
    ) && after.candidates[i].status != CandidateStatus::Left by {
        assert(s.candidates[i].total_stake == s.candidates[i].self_stake + delegated_to(
            s.delegations,
            s.candidates[i].id,
        ));
        lemma_delegated_between(s.delegations, delegator, s.candidates[i].id);
    }
    assert forall|d: AccountId| #[trigger]
        delegation_count(after.delegations, d) <= c.max_delegations_per_delegator by {
        assert(delegation_count(s.delegations, d) <= c.max_delegations_per_delegator);
        lemma_total_filter(s.delegations, keep, counting(d));
    }
    assert forall|d: AccountId| #[trigger] delegated_by(after.delegations, d) <= Balance::MAX by {
        assert(delegated_by(s.delegations, d) <= Balance::MAX);
        lemma_total_filter(s.delegations, keep, staking(d));
    }
}

} // verus!
