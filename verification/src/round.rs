//! The round controller: it counts the rounds and, at each boundary, lets
//! the candidates leave whose time has come and selects the collators of
//! the round that begins.

use vstd::prelude::*;
use crate::candidates::{
    candidate_of, exits_due, ids_unique, is_candidate, is_selection, lemma_position, position,
    CandidateState, CandidateStatus,
};
use crate::error::Error;
use crate::invariants::lemma_after_exit_wf;
use crate::pallet::Pallet;
use crate::state::{execute_leave_candidates_spec, lock_end, state_wf, Config, StakingState};
use crate::{AccountId, BlockNumber, RoundIndex};

verus! {

/// The state after the candidates `ids` have been asked, one after the
/// other, to leave in round `round` at block `now`. A candidate that
/// cannot leave is passed over and stays.
pub open spec fn exits_applied(
    s: StakingState,
    c: Config,
    ids: Seq<AccountId>,
    round: RoundIndex,
    now: BlockNumber,
) -> StakingState
    decreases ids.len(),
{
    if ids.len() == 0 {
        s
    } else {
        let before = exits_applied(s, c, ids.drop_last(), round, now);
        match execute_leave_candidates_spec(before, c, ids.last(), round, now) {
            Ok(next) => next,
            Err(_) => before,
        }
    }
}

/// The state after the boundary to round `round`, crossed at block `now`:
/// the candidates that may leave from that round on have left.
pub open spec fn after_boundary(
    s: StakingState,
    c: Config,
    round: RoundIndex,
    now: BlockNumber,
) -> StakingState {
    exits_applied(s, c, exits_due(s.candidates, round), round, now)
}

/// Every record of the table `part` is a record of the table `whole`.
pub open spec fn is_part_of(part: Seq<CandidateState>, whole: Seq<CandidateState>) -> bool {
    forall|j: int| 0 <= j < part.len() ==> whole.contains(#[trigger] part[j])
}

/// The table holds the candidate `id` with the exit round `round`.
pub open spec fn is_due(cs: Seq<CandidateState>, round: RoundIndex, id: AccountId) -> bool {
    exists|i: int|
        0 <= i < cs.len() && (#[trigger] cs[i]).id == id && cs[i].status
            == CandidateStatus::Leaving(round)
}

/// The candidates that may leave from a round on are the candidates of the
/// table with that exit round, all of them and no others.
pub proof fn lemma_exits_due(cs: Seq<CandidateState>, round: RoundIndex)
    ensures
        forall|m: int|
            0 <= m < exits_due(cs, round).len() ==> is_due(
                cs,
                round,
                #[trigger] exits_due(cs, round)[m],
            ),
        forall|i: int|
            0 <= i < cs.len() && (#[trigger] cs[i]).status == CandidateStatus::Leaving(round)
                ==> exits_due(cs, round).contains(cs[i].id),
    decreases cs.len(),
{
    if cs.len() > 0 {
        let front = cs.drop_last();
        let due = exits_due(cs, round);
        let before = exits_due(front, round);
        lemma_exits_due(front, round);
        assert forall|m: int| 0 <= m < due.len() implies is_due(cs, round, #[trigger] due[m]) by {
            if m < before.len() {
                assert(due[m] == before[m]);
                assert(is_due(front, round, before[m]));
                let i = choose|i: int|
                    0 <= i < front.len() && (#[trigger] front[i]).id == before[m]
                        && front[i].status == CandidateStatus::Leaving(round);
                assert(cs[i] == front[i]);
            } else {
                assert(cs[cs.len() - 1].id == due[m]);
            }
        }
        assert forall|i: int|
            0 <= i < cs.len() && (#[trigger] cs[i]).status == CandidateStatus::Leaving(
                round,
            ) implies due.contains(cs[i].id) by {
            if i < front.len() {
                assert(front[i] == cs[i]);
                assert(before.contains(front[i].id));
                let m = choose|m: int| 0 <= m < before.len() && before[m] == front[i].id;
                assert(due[m] == cs[i].id);
            } else {
                assert(due[due.len() - 1] == cs[i].id);
            }
        }
    }
}

/// Where the lock on withdrawn stake cannot be placed, no candidate
/// leaves.
pub proof fn lemma_exits_passed_over(
    s: StakingState,
    c: Config,
    ids: Seq<AccountId>,
    round: RoundIndex,
    now: BlockNumber,
)
    requires
        lock_end(c, now) > BlockNumber::MAX,
    ensures
        exits_applied(s, c, ids, round, now) == s,
    decreases ids.len(),
{
    if ids.len() > 0 {
        lemma_exits_passed_over(s, c, ids.drop_last(), round, now);
    }
}

/// Where the lock on withdrawn stake can be placed, the candidates asked
/// to leave are candidates no more, as far as their exit round has come;
/// the other candidates stay as they were recorded; and the state holds
/// together.
pub proof fn lemma_exits_applied(
    s: StakingState,
    c: Config,
    ids: Seq<AccountId>,
    round: RoundIndex,
    now: BlockNumber,
)
    requires
        state_wf(s, c),
        lock_end(c, now) <= BlockNumber::MAX,
        forall|m: int|
            0 <= m < ids.len() && is_candidate(s.candidates, #[trigger] ids[m]) ==> candidate_of(
                s.candidates,
                ids[m],
            ).status == CandidateStatus::Leaving(round),
    ensures
        state_wf(exits_applied(s, c, ids, round, now), c),
        is_part_of(exits_applied(s, c, ids, round, now).candidates, s.candidates),
        forall|m: int|
            0 <= m < ids.len() ==> !is_candidate(
                exits_applied(s, c, ids, round, now).candidates,
                #[trigger] ids[m],
            ),
    decreases ids.len(),
{
    if ids.len() > 0 {
        let front = ids.drop_last();
        let id = ids.last();
        let before = exits_applied(s, c, front, round, now);
        let after = exits_applied(s, c, ids, round, now);
        assert forall|m: int|
            0 <= m < front.len() && is_candidate(
                s.candidates,
                #[trigger] front[m],
            ) implies candidate_of(s.candidates, front[m]).status == CandidateStatus::Leaving(
            round,
        ) by {
            assert(front[m] == ids[m]);
        }
        lemma_exits_applied(s, c, front, round, now);
        if is_candidate(before.candidates, id) {
            let at = position(before.candidates, id);
            let record = before.candidates[at];
            assert(s.candidates.contains(record));
            let from = choose|i: int| 0 <= i < s.candidates.len() && s.candidates[i] == record;
            lemma_position(s.candidates, from);
            assert(ids[ids.len() - 1] == id);
            assert(after == crate::state::after_exit(before, id, lock_end(c, now) as BlockNumber));
            lemma_after_exit_wf(before, c, id, lock_end(c, now) as BlockNumber);
            assert forall|j: int| 0 <= j < after.candidates.len() implies s.candidates.contains(
                #[trigger] after.candidates[j],
            ) by {
                let k = if j < at { j } else { j + 1 };
                assert(after.candidates[j] == before.candidates[k]);
            }
            assert forall|m: int| 0 <= m < ids.len() implies !is_candidate(
                after.candidates,
                #[trigger] ids[m],
            ) by {
                if is_candidate(after.candidates, ids[m]) {
                    let j = position(after.candidates, ids[m]);
                    let k = if j < at { j } else { j + 1 };
                    assert(after.candidates[j] == before.candidates[k]);
                    if m < front.len() {
                        assert(front[m] == ids[m]);
                        assert(before.candidates[k].id == front[m]);
                    } else {
                        if k < at {
                            assert(before.candidates[k].id != before.candidates[at].id);
                        } else {
                            assert(before.candidates[at].id != before.candidates[k].id);
                        }
                    }
                }
            }
        } else {
            assert(after == before);
            assert forall|m: int| 0 <= m < ids.len() implies !is_candidate(
                after.candidates,
                #[trigger] ids[m],
            ) by {
                if m < front.len() {
                    assert(front[m] == ids[m]);
                }
            }
        }
    }
}

/// A table in which no candidate has the exit round `round` lets none
/// leave from that round on.
pub proof fn lemma_no_exits_due(cs: Seq<CandidateState>, round: RoundIndex)
    requires
        forall|i: int|
            0 <= i < cs.len() ==> (#[trigger] cs[i]).status != CandidateStatus::Leaving(round),
    ensures
        exits_due(cs, round) == Seq::<AccountId>::empty(),
    decreases cs.len(),
{
    if cs.len() > 0 {
        let front = cs.drop_last();
        assert forall|i: int| 0 <= i < front.len() implies (#[trigger] front[i]).status
            != CandidateStatus::Leaving(round) by {
            assert(front[i] == cs[i]);
        }
        lemma_no_exits_due(front, round);
        assert(cs[cs.len() - 1].status != CandidateStatus::Leaving(round));
    }
}

/// A round boundary is safe to process again: what the first pass made of
/// the state, a second pass leaves as it is. No exit is carried out twice.
pub proof fn lemma_boundary_is_idempotent(
    s: StakingState,
    c: Config,
    round: RoundIndex,
    now: BlockNumber,
)
    requires
        state_wf(s, c),
    ensures
        state_wf(after_boundary(s, c, round, now), c),
        after_boundary(after_boundary(s, c, round, now), c, round, now) == after_boundary(
            s,
            c,
            round,
            now,
        ),
{
    let ids = exits_due(s.candidates, round);
    let after = after_boundary(s, c, round, now);
    if lock_end(c, now) > BlockNumber::MAX {
        lemma_exits_passed_over(s, c, ids, round, now);
    } else {
        lemma_exits_due(s.candidates, round);
        assert forall|m: int|
            0 <= m < ids.len() && is_candidate(s.candidates, #[trigger] ids[m]) implies candidate_of(
            s.candidates,
            ids[m],
        ).status == CandidateStatus::Leaving(round) by {
            assert(is_due(s.candidates, round, ids[m]));
            let i = choose|i: int|
                0 <= i < s.candidates.len() && (#[trigger] s.candidates[i]).id == ids[m]
                    && s.candidates[i].status == CandidateStatus::Leaving(round);
            lemma_position(s.candidates, i);
        }
        lemma_exits_applied(s, c, ids, round, now);
        assert forall|j: int| 0 <= j < after.candidates.len() implies (
        #[trigger] after.candidates[j]).status != CandidateStatus::Leaving(round) by {
            if after.candidates[j].status == CandidateStatus::Leaving(round) {
                assert(s.candidates.contains(after.candidates[j]));
                let i = choose|i: int|
                    0 <= i < s.candidates.len() && s.candidates[i] == after.candidates[j];
                assert(ids.contains(s.candidates[i].id));
                let m = choose|m: int| 0 <= m < ids.len() && ids[m] == s.candidates[i].id;
                assert(!is_candidate(after.candidates, ids[m]));
            }
        }
        lemma_no_exits_due(after.candidates, round);
    }
}

/// The round controller.
pub struct RoundController {
    current: RoundIndex,
    first_block: BlockNumber,
    blocks_per_round: BlockNumber,
    max_selected_candidates: u32,
    selected: Vec<AccountId>,
}

impl RoundController {
    /// The current round.
    pub closed spec fn current(&self) -> RoundIndex {
        self.current
    }

    /// The block at which the current round began.
    pub closed spec fn first_block(&self) -> BlockNumber {
        self.first_block
    }

    /// The number of blocks in a round.
    pub closed spec fn blocks_per_round(&self) -> BlockNumber {
        self.blocks_per_round
    }

    /// The greatest number of collators in a round.
    pub closed spec fn max_selected_candidates(&self) -> u32 {
        self.max_selected_candidates
    }

    /// The collators of the current round, the best first.
    pub closed spec fn selected(&self) -> Seq<AccountId> {
        self.selected@
    }

    /// The controller is well formed: a round has blocks, and a selection
    /// has room.
    pub open spec fn wf(&self) -> bool {
        self.blocks_per_round() > 0 && self.max_selected_candidates() > 0
    }

    /// At block `now` the current round is over, and the next one can be
    /// counted.
    pub open spec fn is_boundary(&self, now: BlockNumber) -> bool {
        now >= self.first_block() + self.blocks_per_round() && self.current() < RoundIndex::MAX
    }

    /// The block at which a round began is no boundary again: taking note
    /// of the same block twice begins one round, not two.
    pub proof fn lemma_boundary_once(&self, now: BlockNumber)
        requires
            self.wf(),
            self.first_block() == now,
        ensures
            !self.is_boundary(now),
    {
    }

    /// A controller in round 0, which begins at `first_block`, with no
    /// collator selected yet.
    pub fn new(
        first_block: BlockNumber,
        blocks_per_round: BlockNumber,
        max_selected_candidates: u32,
    ) -> (r: Result<RoundController, Error>)
        ensures
            match r {
                Ok(rc) => {
                    &&& blocks_per_round > 0 && max_selected_candidates > 0
                    &&& rc.wf()
                    &&& rc.current() == 0
                    &&& rc.first_block() == first_block
                    &&& rc.blocks_per_round() == blocks_per_round
                    &&& rc.max_selected_candidates() == max_selected_candidates
                    &&& rc.selected() == Seq::<AccountId>::empty()
                },
                Err(e) => e == Error::InvalidParameter && (blocks_per_round == 0
                    || max_selected_candidates == 0),
            },
    {
        if blocks_per_round == 0 || max_selected_candidates == 0 {
            return Err(Error::InvalidParameter);
        }
        Ok(
            RoundController {
                current: 0,
                first_block,
                blocks_per_round,
                max_selected_candidates,
                selected: Vec::new(),
            },
        )
    }

    /// The current round.
    pub fn current_round(&self) -> (r: RoundIndex)
        ensures
            r == self.current(),
    {
        self.current
    }

    /// The block at which the current round began.
    pub fn round_start(&self) -> (r: BlockNumber)
        ensures
            r == self.first_block(),
    {
        self.first_block
    }

    /// The number of blocks in a round.
    pub fn round_length(&self) -> (r: BlockNumber)
        ensures
            r == self.blocks_per_round(),
    {
        self.blocks_per_round
    }

    /// The greatest number of collators in a round.
    pub fn selection_limit(&self) -> (r: u32)
        ensures
            r == self.max_selected_candidates(),
    {
        self.max_selected_candidates
    }

    /// The collators of the current round, the best first.
    pub fn selected_candidates(&self) -> (r: &Vec<AccountId>)
        ensures
            r@ == self.selected(),
    {
        &self.selected
    }

    /// Sets the greatest number of collators in a round, which must not be
    /// zero. It applies from the next selection on.
    pub fn set_max_selected_candidates(&mut self, limit: u32) -> (r: Result<(), Error>)
        requires
            old(self).wf(),
        ensures
            final(self).wf(),
            final(self).current() == old(self).current(),
            final(self).first_block() == old(self).first_block(),
            final(self).blocks_per_round() == old(self).blocks_per_round(),
            final(self).selected() == old(self).selected(),
            match r {
                Ok(_) => limit > 0 && final(self).max_selected_candidates() == limit,
                Err(e) => {
                    &&& e == Error::InvalidParameter
                    &&& limit == 0
                    &&& final(self).max_selected_candidates() == old(self).max_selected_candidates()
                },
            },
    {
        if limit == 0 {
            return Err(Error::InvalidParameter);
        }
        self.max_selected_candidates = limit;
        Ok(())
    }

    /// Sets the number of blocks in a round, which must not be zero.
    pub fn set_blocks_per_round(&mut self, blocks: BlockNumber) -> (r: Result<(), Error>)
        requires
            old(self).wf(),
        ensures
            final(self).wf(),
            final(self).current() == old(self).current(),
            final(self).first_block() == old(self).first_block(),
            final(self).max_selected_candidates() == old(self).max_selected_candidates(),
            final(self).selected() == old(self).selected(),
            match r {
                Ok(_) => blocks > 0 && final(self).blocks_per_round() == blocks,
                Err(e) => {
                    &&& e == Error::InvalidParameter
                    &&& blocks == 0
                    &&& final(self).blocks_per_round() == old(self).blocks_per_round()
                },
            },
    {
        if blocks == 0 {
            return Err(Error::InvalidParameter);
        }
        self.blocks_per_round = blocks;
        Ok(())
    }

    /// Whether the current round is over at block `now` and the next one
    /// can be counted.
    pub fn should_advance(&self, now: BlockNumber) -> (r: bool)
        ensures
            r == self.is_boundary(now),
    {
        now >= self.first_block && now - self.first_block >= self.blocks_per_round && self.current
            < RoundIndex::MAX
    }

    /// Takes note of block `now`. Where the current round is over, the next
    /// one begins at this block: the candidates that may leave from it on
    /// leave the pallet, the collators of the round are selected from those
    /// that stay, and the result is `true`: the selection is to be
    /// published. Otherwise nothing changes.
    pub fn on_block(&mut self, pallet: &mut Pallet, now: BlockNumber) -> (advanced: bool)
        requires
            old(self).wf(),
            old(pallet).wf(),
        ensures
            final(self).wf(),
            final(pallet).wf(),
            final(pallet).config() == old(pallet).config(),
            final(pallet).stored() == old(pallet).stored(),
            final(self).blocks_per_round() == old(self).blocks_per_round(),
            final(self).max_selected_candidates() == old(self).max_selected_candidates(),
            advanced == old(self).is_boundary(now),
            advanced ==> {
                &&& final(self).current() == old(self).current() + 1
                &&& final(self).first_block() == now
                &&& final(pallet)@ == after_boundary(
                    old(pallet)@,
                    old(pallet).config(),
                    final(self).current(),
                    now,
                )
                &&& is_selection(
                    final(pallet)@.candidates,
                    final(self).max_selected_candidates() as int,
                    final(self).selected(),
                )
            },
            !advanced ==> {
                &&& final(self).current() == old(self).current()
                &&& final(self).first_block() == old(self).first_block()
                &&& final(self).selected() == old(self).selected()
                &&& final(pallet)@ == old(pallet)@
            },
    {
        if !self.should_advance(now) {
            return false;
        }
        let round = self.current + 1;
        let due = pallet.pending_exits(round);
        let mut k: usize = 0;
        while k < due.len()
            invariant
                k <= due.len(),
                pallet.wf(),
                pallet.config() == old(pallet).config(),
                pallet.stored() == old(pallet).stored(),
                pallet@ == exits_applied(
                    old(pallet)@,
                    old(pallet).config(),
                    due@.take(k as int),
                    round,
                    now,
                ),
            decreases due.len() - k,
        {
            assert(due@.take(k + 1).drop_last() =~= due@.take(k as int));
            let _ = pallet.execute_leave_candidates(due[k], round, now);
            k += 1;
        }
        assert(due@.take(due.len() as int) =~= due@);
        self.current = round;
        self.first_block = now;
        self.selected = pallet.select_candidates(self.max_selected_candidates);
        true
    }
}

} // verus!
