//! The candidate pool: the accounts that stand for selection as collators.
//!
//! The pool is one table, in which no account occurs twice. Each round the
//! active candidates with the greatest total stake are selected; among
//! candidates of equal stake the smaller account comes first, so that the
//! same table always gives the same selection.

use vstd::prelude::*;
use crate::{AccountId, Balance, RoundIndex};

verus! {

/// Where a candidate stands in its life.
#[derive(Copy, Clone, Debug, PartialEq, Eq, Structural)]
pub enum CandidateStatus {
    /// The candidate stands for selection.
    Active,
    /// The candidate has asked to leave and may do so from the given round
    /// on. It is selected no more.
    Leaving(RoundIndex),
    /// The candidate has left and is no longer in the pool.
    Left,
}

/// What the pool records of a candidate.
#[derive(Copy, Clone, Debug, PartialEq, Eq, Structural)]
pub struct CandidateState {
    /// The candidate's account.
    pub id: AccountId,
    /// What the candidate staked itself.
    pub self_stake: Balance,
    /// The candidate's own stake and all that is delegated to it.
    pub total_stake: Balance,
    /// Where the candidate stands in its life.
    pub status: CandidateStatus,
}

/// No account occurs twice in the table.
pub open spec fn ids_unique(cs: Seq<CandidateState>) -> bool {
    forall|i: int, j: int| 0 <= i < j < cs.len() ==> (#[trigger] cs[i]).id != (#[trigger] cs[j]).id
}

/// The account is a candidate.
pub open spec fn is_candidate(cs: Seq<CandidateState>, id: AccountId) -> bool {
    exists|i: int| 0 <= i < cs.len() && (#[trigger] cs[i]).id == id
}

/// Where in the table the candidate `id` stands.
pub open spec fn position(cs: Seq<CandidateState>, id: AccountId) -> int {
    choose|i: int| 0 <= i < cs.len() && (#[trigger] cs[i]).id == id
}

/// What the table records of the candidate `id`.
pub open spec fn candidate_of(cs: Seq<CandidateState>, id: AccountId) -> CandidateState
    recommends
        is_candidate(cs, id),
{
    cs[position(cs, id)]
}

/// The candidate `a` is selected before the candidate `b`: its total
/// stake is greater, or the same and its account is the smaller one.
pub open spec fn precedes(a: CandidateState, b: CandidateState) -> bool {
    a.total_stake > b.total_stake || (a.total_stake == b.total_stake && a.id < b.id)
}

/// `picked` is the selection of at most `limit` candidates from the
/// table: it holds active candidates only, the best first, and whoever is
/// active and missing from it was cut by the limit and comes behind all
/// that were picked.
pub open spec fn is_selection(cs: Seq<CandidateState>, limit: int, picked: Seq<AccountId>) -> bool {
    &&& picked.len() <= limit
    &&& forall|k: int|
        0 <= k < picked.len() ==> is_candidate(cs, #[trigger] picked[k]) && candidate_of(
            cs,
            picked[k],
        ).status == CandidateStatus::Active
    &&& forall|k: int, l: int|
        0 <= k < l < picked.len() ==> precedes(
            candidate_of(cs, #[trigger] picked[k]),
            candidate_of(cs, #[trigger] picked[l]),
        )
    &&& forall|i: int|
        0 <= i < cs.len() && (#[trigger] cs[i]).status == CandidateStatus::Active
            && !picked.contains(cs[i].id) ==> picked.len() == limit && forall|k: int|
            0 <= k < picked.len() ==> precedes(candidate_of(cs, #[trigger] picked[k]), cs[i])
}

/// The candidates that asked to leave and may do so from round `round`
/// on, in the order of the table.
pub open spec fn exits_due(cs: Seq<CandidateState>, round: RoundIndex) -> Seq<AccountId>
    decreases cs.len(),
{
    if cs.len() == 0 {
        Seq::empty()
    } else if cs.last().status == CandidateStatus::Leaving(round) {
        exits_due(cs.drop_last(), round).push(cs.last().id)
    } else {
        exits_due(cs.drop_last(), round)
    }
}

/// In a table without repetition a candidate stands where its account is
/// found.
pub proof fn lemma_position(cs: Seq<CandidateState>, i: int)
    requires
        ids_unique(cs),
        0 <= i < cs.len(),
    ensures
        is_candidate(cs, cs[i].id),
        position(cs, cs[i].id) == i,
        candidate_of(cs, cs[i].id) == cs[i],
{
    let p = position(cs, cs[i].id);
    if p < i {
        assert(cs[p].id != cs[i].id);
    } else if i < p {
        assert(cs[i].id != cs[p].id);
    }
}

/// Looks the candidate `id` up in the table.
pub fn find_candidate(cs: &Vec<CandidateState>, id: AccountId) -> (r: Option<usize>)
    ensures
        match r {
            Some(i) => i < cs.len() && cs@[i as int].id == id,
            None => !is_candidate(cs@, id),
        },
{
    let mut i: usize = 0;
    while i < cs.len()
        invariant
            i <= cs.len(),
            forall|k: int| 0 <= k < i ==> (#[trigger] cs@[k]).id != id,
        decreases cs.len() - i,
    {
        if cs[i].id == id {
            return Some(i);
        }
        i += 1;
    }
    None
}

/// Lists the candidates that asked to leave and may do so from round
/// `round` on.
pub fn find_exits_due(cs: &Vec<CandidateState>, round: RoundIndex) -> (due: Vec<AccountId>)
    ensures
        due@ == exits_due(cs@, round),
{
    let mut due: Vec<AccountId> = Vec::new();
    let mut k: usize = 0;
    while k < cs.len()
        invariant
            k <= cs.len(),
            due@ == exits_due(cs@.take(k as int), round),
        decreases cs.len() - k,
    {
        assert(cs@.take(k + 1).drop_last() =~= cs@.take(k as int));
        match cs[k].status {
            CandidateStatus::Leaving(exit_round) => {
                if exit_round == round {
                    due.push(cs[k].id);
                }
            },
            _ => {},
        }
        k += 1;
    }
    assert(cs@.take(cs.len() as int) =~= cs@);
    due
}

/// Whether the candidate `a` is selected before the candidate `b`.
pub fn comes_first(a: &CandidateState, b: &CandidateState) -> (r: bool)
    ensures
        r == precedes(*a, *b),
{
    a.total_stake > b.total_stake || (a.total_stake == b.total_stake && a.id < b.id)
}

/// Whether the candidate stands for selection.
pub fn is_active(c: &CandidateState) -> (r: bool)
    ensures
        r == (c.status == CandidateStatus::Active),
{
    match c.status {
        CandidateStatus::Active => true,
        _ => false,
    }
}

/// The best of the active candidates that come behind the candidate at
/// `after`, or behind none where `after` is `None`.
fn next_best(cs: &Vec<CandidateState>, after: Option<usize>) -> (r: Option<usize>)
    requires
        ids_unique(cs@),
        match after {
            Some(a) => a < cs.len(),
            None => true,
        },
    ensures
        match r {
            Some(b) => {
                &&& b < cs.len()
                &&& cs@[b as int].status == CandidateStatus::Active
                &&& behind(cs@, after, b as int)
                &&& forall|i: int|
                    0 <= i < cs.len() && i != b && (#[trigger] cs@[i]).status
                        == CandidateStatus::Active && behind(cs@, after, i) ==> precedes(
                        cs@[b as int],
                        cs@[i],
                    )
            },
            None => forall|i: int|
                0 <= i < cs.len() && (#[trigger] cs@[i]).status == CandidateStatus::Active
                    ==> !behind(cs@, after, i),
        },
{
    let mut best: Option<usize> = None;
    let mut i: usize = 0;
    while i < cs.len()
        invariant
            i <= cs.len(),
            ids_unique(cs@),
            match after {
                Some(a) => a < cs.len(),
                None => true,
            },
            match best {
                Some(b) => {
                    &&& b < i
                    &&& cs@[b as int].status == CandidateStatus::Active
                    &&& behind(cs@, after, b as int)
                    &&& forall|k: int|
                        0 <= k < i && k != b && (#[trigger] cs@[k]).status
                            == CandidateStatus::Active && behind(cs@, after, k) ==> precedes(
                            cs@[b as int],
                            cs@[k],
                        )
                },
                None => forall|k: int|
                    0 <= k < i && (#[trigger] cs@[k]).status == CandidateStatus::Active
                        ==> !behind(cs@, after, k),
            },
        decreases cs.len() - i,
    {
        let eligible = is_active(&cs[i]) && match after {
            Some(a) => comes_first(&cs[a], &cs[i]),
            None => true,
        };
        if eligible {
            let better = match best {
                Some(b) => comes_first(&cs[i], &cs[b]),
                None => true,
            };
            proof {
                if let Some(b) = best {
                    assert(cs@[b as int].id != cs@[i as int].id);
                }
            }
            if better {
                best = Some(i);
            }
        }
        i += 1;
    }
    best
}

/// The candidate at `i` comes behind the candidate at `after`; behind
/// `None` comes every candidate.
pub open spec fn behind(cs: Seq<CandidateState>, after: Option<usize>, i: int) -> bool {
    match after {
        Some(a) => precedes(cs[a as int], cs[i]),
        None => true,
    }
}

/// Selects at most `limit` of the active candidates of the table: those
/// with the greatest total stake, the best first, the smaller account first
/// among candidates of equal stake.
pub(crate) fn select(cs: &Vec<CandidateState>, limit: u32) -> (picked: Vec<AccountId>)
    requires
        ids_unique(cs@),
    ensures
        is_selection(cs@, limit as int, picked@),
{
    let mut picked: Vec<AccountId> = Vec::new();
    let mut last: Option<usize> = None;
    let ghost mut at: Seq<int> = Seq::empty();
    let mut full: bool = false;
    while !full && picked.len() < limit as usize
        invariant
            ids_unique(cs@),
            picked@.len() == at.len() <= limit,
            match last {
                Some(a) => at.len() > 0 && a == at.last(),
                None => at.len() == 0,
            },
            forall|k: int|
                0 <= k < at.len() ==> 0 <= (#[trigger] at[k]) < cs.len() && cs@[at[k]].status
                    == CandidateStatus::Active && picked@[k] == cs@[at[k]].id,
            forall|k: int, l: int|
                0 <= k < l < at.len() ==> precedes(cs@[#[trigger] at[k]], cs@[#[trigger] at[l]]),
            forall|i: int|
                0 <= i < cs.len() && (#[trigger] cs@[i]).status == CandidateStatus::Active ==> (
                exists|k: int| 0 <= k < at.len() && at[k] == i) || behind(cs@, last, i),
            full ==> forall|i: int|
                0 <= i < cs.len() && (#[trigger] cs@[i]).status == CandidateStatus::Active
                    ==> exists|k: int| 0 <= k < at.len() && at[k] == i,
        decreases (if full { 0int } else { 1int }), limit - picked@.len(),
    {
        match next_best(cs, last) {
            Some(b) => {
                proof {
                    let ghost grown = at.push(b as int);
                    assert forall|k: int, l: int| 0 <= k < l < grown.len() implies precedes(
                        cs@[#[trigger] grown[k]],
                        cs@[#[trigger] grown[l]],
                    ) by {
                        if l == at.len() && k < at.len() - 1 {
                            assert(precedes(cs@[at[k]], cs@[at[at.len() - 1]]));
                        }
                    }
                    assert forall|i: int|
                        0 <= i < cs.len() && (#[trigger] cs@[i]).status
                            == CandidateStatus::Active implies (exists|k: int|
                        0 <= k < grown.len() && grown[k] == i) || behind(cs@, Some(b), i) by {
                        if exists|k: int| 0 <= k < at.len() && at[k] == i {
                            let k = choose|k: int| 0 <= k < at.len() && at[k] == i;
                            assert(grown[k] == i);
                        } else if i == b {
                            assert(grown[at.len() as int] == i);
                        }
                    }
                    at = grown;
                }
                picked.push(cs[b].id);
                last = Some(b);
            },
            None => {
                full = true;
            },
        }
    }
    proof {
        assert forall|k: int| 0 <= k < picked@.len() implies is_candidate(
            cs@,
            #[trigger] picked@[k],
        ) && candidate_of(cs@, picked@[k]) == cs@[at[k]] by {
            lemma_position(cs@, at[k]);
        }
        assert forall|i: int|
            0 <= i < cs.len() && (#[trigger] cs@[i]).status == CandidateStatus::Active
                && !picked@.contains(cs@[i].id) implies picked@.len() == limit && forall|k: int|
            0 <= k < picked@.len() ==> precedes(candidate_of(cs@, #[trigger] picked@[k]), cs@[i]) by {
            if exists|k: int| 0 <= k < at.len() && at[k] == i {
                let k = choose|k: int| 0 <= k < at.len() && at[k] == i;
                assert(picked@[k] == cs@[i].id);
            }
            assert forall|k: int| 0 <= k < picked@.len() implies precedes(
                candidate_of(cs@, #[trigger] picked@[k]),
                cs@[i],
            ) by {
                if k < at.len() - 1 {
                    assert(precedes(cs@[at[k]], cs@[at[at.len() - 1]]));
                }
            }
        }
    }
    picked
}

/// Of two active candidates with the same total stake, the one with the
/// smaller account is selected first: where the selection holds the other
/// one, it holds this one too, and earlier.
pub proof fn lemma_selection_breaks_ties(
    cs: Seq<CandidateState>,
    limit: int,
    picked: Seq<AccountId>,
    i: int,
    j: int,
)
    requires
        ids_unique(cs),
        is_selection(cs, limit, picked),
        0 <= i < cs.len(),
        0 <= j < cs.len(),
        cs[i].status == CandidateStatus::Active,
        cs[j].status == CandidateStatus::Active,
        cs[i].total_stake == cs[j].total_stake,
        cs[i].id < cs[j].id,
        picked.contains(cs[j].id),
    ensures
        picked.contains(cs[i].id),
        picked.index_of(cs[i].id) < picked.index_of(cs[j].id),
{
    lemma_position(cs, i);
    lemma_position(cs, j);
    let l = picked.index_of(cs[j].id);
    assert(picked[l] == cs[j].id);
    if !picked.contains(cs[i].id) {
        assert(precedes(candidate_of(cs, picked[l]), cs[i]));
    }
    let k = picked.index_of(cs[i].id);
    assert(picked[k] == cs[i].id);
    if l < k {
        assert(precedes(candidate_of(cs, picked[l]), candidate_of(cs, picked[k])));
    }
}

/// Two selections from one table agree on their first `n` places.
proof fn lemma_selections_agree(
    cs: Seq<CandidateState>,
    limit: int,
    p: Seq<AccountId>,
    q: Seq<AccountId>,
    n: int,
)
    requires
        ids_unique(cs),
        is_selection(cs, limit, p),
        is_selection(cs, limit, q),
        0 <= n <= p.len(),
        n <= q.len(),
    ensures
        forall|j: int| 0 <= j < n ==> p[j] == q[j],
    decreases n,
{
    if n > 0 {
        lemma_selections_agree(cs, limit, p, q, n - 1);
        let i = n - 1;
        if p[i] != q[i] {
            let a = candidate_of(cs, p[i]);
            let b = candidate_of(cs, q[i]);
            assert(is_candidate(cs, p[i]) && is_candidate(cs, q[i]));
            lemma_position(cs, position(cs, p[i]));
            lemma_position(cs, position(cs, q[i]));
            if precedes(a, b) {
                lemma_not_in_other(cs, limit, p, q, i);
                assert(precedes(candidate_of(cs, q[i]), cs[position(cs, p[i])]));
            } else {
                lemma_not_in_other(cs, limit, q, p, i);
                assert(precedes(candidate_of(cs, p[i]), cs[position(cs, q[i])]));
            }
        }
    }
}

/// Where two selections agree before place `i`, and the candidate of the
/// first at `i` comes before that of the second, the second selection does
/// not hold that candidate at all.
proof fn lemma_not_in_other(
    cs: Seq<CandidateState>,
    limit: int,
    p: Seq<AccountId>,
    q: Seq<AccountId>,
    i: int,
)
    requires
        ids_unique(cs),
        is_selection(cs, limit, p),
        is_selection(cs, limit, q),
        0 <= i < p.len(),
        i < q.len(),
        forall|j: int| 0 <= j < i ==> p[j] == q[j],
        p[i] != q[i],
        precedes(candidate_of(cs, p[i]), candidate_of(cs, q[i])) || !precedes(
            candidate_of(cs, q[i]),
            candidate_of(cs, p[i]),
        ),
    ensures
        !q.contains(p[i]),
{
    if q.contains(p[i]) {
        let l = choose|l: int| 0 <= l < q.len() && q[l] == p[i];
        assert(is_candidate(cs, p[i]) && is_candidate(cs, q[i]));
        lemma_position(cs, position(cs, p[i]));
        lemma_position(cs, position(cs, q[i]));
        if l < i {
            assert(precedes(candidate_of(cs, p[l]), candidate_of(cs, p[i])));
        } else if l > i {
            assert(precedes(candidate_of(cs, q[i]), candidate_of(cs, q[l])));
        }
    }
}

/// The selection is determined: whatever selects at most `limit`
/// candidates from a table as described, selects the same candidates in the
/// same order.
pub proof fn lemma_selection_is_unique(
    cs: Seq<CandidateState>,
    limit: int,
    p: Seq<AccountId>,
    q: Seq<AccountId>,
)
    requires
        ids_unique(cs),
        is_selection(cs, limit, p),
        is_selection(cs, limit, q),
    ensures
        p == q,
{
    let n = if p.len() <= q.len() { p.len() as int } else { q.len() as int };
    lemma_selections_agree(cs, limit, p, q, n);
    if p.len() < q.len() {
        lemma_cut_by_limit(cs, limit, p, q);
    } else if q.len() < p.len() {
        assert forall|j: int| 0 <= j < n implies q[j] == p[j] by {}
        lemma_cut_by_limit(cs, limit, q, p);
    }
    assert(p =~= q);
}

/// A selection that is a proper beginning of another one is full.
proof fn lemma_cut_by_limit(
    cs: Seq<CandidateState>,
    limit: int,
    p: Seq<AccountId>,
    q: Seq<AccountId>,
)
    requires
        ids_unique(cs),
        is_selection(cs, limit, p),
        is_selection(cs, limit, q),
        p.len() < q.len(),
        forall|j: int| 0 <= j < p.len() ==> p[j] == q[j],
    ensures
        p.len() == limit,
{
    let x = q[p.len() as int];
    assert(is_candidate(cs, x));
    let at = position(cs, x);
    lemma_position(cs, at);
    if p.contains(x) {
        let j = choose|j: int| 0 <= j < p.len() && p[j] == x;
        assert(precedes(candidate_of(cs, q[j]), candidate_of(cs, q[p.len() as int])));
    }
    assert(cs[at].status == CandidateStatus::Active && !p.contains(cs[at].id));
}

} // verus!
