//! The delegation graph: which delegator backs which candidate, and with
//! how much.
//!
//! The graph is one table of edges. An edge is found by its pair of
//! delegator and candidate, and no pair occurs twice. What a candidate is
//! backed with and what a delegator has at stake are sums over the table.

use vstd::prelude::*;
use crate::{AccountId, Balance};

verus! {

/// An edge of the graph: `delegator` backs `candidate` with `amount`.
#[derive(Copy, Clone, Debug, PartialEq, Eq, Structural)]
pub struct Delegation {
    /// The account that delegates.
    pub delegator: AccountId,
    /// The candidate that is backed.
    pub candidate: AccountId,
    /// The delegated amount.
    pub amount: Balance,
}

/// The sum of `weight` over the edges of a table.
pub open spec fn total(ds: Seq<Delegation>, weight: spec_fn(Delegation) -> int) -> int
    decreases ds.len(),
{
    if ds.len() == 0 {
        0
    } else {
        total(ds.drop_last(), weight) + weight(ds.last())
    }
}

/// What an edge adds to the backing of `candidate`.
pub open spec fn backing(candidate: AccountId) -> spec_fn(Delegation) -> int {
    |e: Delegation|
        if e.candidate == candidate {
            e.amount as int
        } else {
            0
        }
}

/// What an edge adds to the stake of `delegator`.
pub open spec fn staking(delegator: AccountId) -> spec_fn(Delegation) -> int {
    |e: Delegation|
        if e.delegator == delegator {
            e.amount as int
        } else {
            0
        }
}

/// What an edge adds to the number of candidates that `delegator` backs.
pub open spec fn counting(delegator: AccountId) -> spec_fn(Delegation) -> int {
    |e: Delegation|
        if e.delegator == delegator {
            1
        } else {
            0
        }
}

/// The sum of all amounts delegated to `candidate`.
pub open spec fn delegated_to(ds: Seq<Delegation>, candidate: AccountId) -> int {
    total(ds, backing(candidate))
}

/// The sum of all amounts that `delegator` has delegated.
pub open spec fn delegated_by(ds: Seq<Delegation>, delegator: AccountId) -> int {
    total(ds, staking(delegator))
}

/// The number of candidates that `delegator` backs.
pub open spec fn delegation_count(ds: Seq<Delegation>, delegator: AccountId) -> int {
    total(ds, counting(delegator))
}

/// The table holds an edge from `delegator` to `candidate`.
pub open spec fn has_delegation(ds: Seq<Delegation>, delegator: AccountId, candidate: AccountId) -> bool {
    exists|i: int| 0 <= i < ds.len() && is_edge(#[trigger] ds[i], delegator, candidate)
}

/// The edge leads from `delegator` to `candidate`.
pub open spec fn is_edge(e: Delegation, delegator: AccountId, candidate: AccountId) -> bool {
    e.delegator == delegator && e.candidate == candidate
}

/// No pair of delegator and candidate occurs twice in the table.
pub open spec fn pairs_unique(ds: Seq<Delegation>) -> bool {
    forall|i: int, j: int|
        0 <= i < j < ds.len() ==> !is_edge(#[trigger] ds[i], (#[trigger] ds[j]).delegator, ds[j].candidate)
}

/// The edges that lead to `candidate`.
pub open spec fn edges_to(ds: Seq<Delegation>, candidate: AccountId) -> Seq<Delegation> {
    ds.filter(|e: Delegation| e.candidate == candidate)
}

/// The edges that do not lead to `candidate`.
pub open spec fn edges_past(ds: Seq<Delegation>, candidate: AccountId) -> Seq<Delegation> {
    ds.filter(|e: Delegation| e.candidate != candidate)
}

/// The edges that start at `delegator`.
pub open spec fn edges_of(ds: Seq<Delegation>, delegator: AccountId) -> Seq<Delegation> {
    ds.filter(|e: Delegation| e.delegator == delegator)
}

/// The edges that do not start at `delegator`.
pub open spec fn edges_beside(ds: Seq<Delegation>, delegator: AccountId) -> Seq<Delegation> {
    ds.filter(|e: Delegation| e.delegator != delegator)
}

/// A sum of weights that are never negative is not negative, and no
/// smaller than the sum over the first edges alone.
pub proof fn lemma_total_grows(ds: Seq<Delegation>, weight: spec_fn(Delegation) -> int, n: int)
    requires
        0 <= n <= ds.len(),
        forall|e: Delegation| #[trigger] weight(e) >= 0,
    ensures
        0 <= total(ds.take(n), weight) <= total(ds, weight),
    decreases ds.len(),
{
    if ds.len() == 0 {
        assert(ds.take(n) =~= ds);
    } else {
        let front = ds.drop_last();
        if n == ds.len() {
            lemma_total_grows(front, weight, n - 1);
            assert(front.take(n - 1) =~= front);
            assert(ds.take(n) =~= ds);
        } else {
            lemma_total_grows(front, weight, n);
            assert(front.take(n) =~= ds.take(n));
        }
    }
}

/// A sum of weights that are never negative is at least the weight of
/// each edge.
pub proof fn lemma_total_covers(ds: Seq<Delegation>, weight: spec_fn(Delegation) -> int, i: int)
    requires
        0 <= i < ds.len(),
        forall|e: Delegation| #[trigger] weight(e) >= 0,
    ensures
        total(ds, weight) >= weight(ds[i]),
    decreases ds.len(),
{
    if i == ds.len() - 1 {
        lemma_total_grows(ds.drop_last(), weight, 0);
        assert(ds.drop_last().take(0) =~= Seq::<Delegation>::empty());
        lemma_total_grows(ds.drop_last(), weight, ds.len() - 1);
    } else {
        lemma_total_covers(ds.drop_last(), weight, i);
    }
}

/// The sum over the first edges and one more.
pub proof fn lemma_total_step(ds: Seq<Delegation>, weight: spec_fn(Delegation) -> int, n: int)
    requires
        0 <= n < ds.len(),
    ensures
        total(ds.take(n + 1), weight) == total(ds.take(n), weight) + weight(ds[n]),
{
    assert(ds.take(n + 1).drop_last() =~= ds.take(n));
}

/// The sum over two tables, one behind the other.
pub proof fn lemma_total_concat(a: Seq<Delegation>, b: Seq<Delegation>, weight: spec_fn(Delegation) -> int)
    ensures
        total(a + b, weight) == total(a, weight) + total(b, weight),
    decreases b.len(),
{
    if b.len() == 0 {
        assert(a + b =~= a);
    } else {
        lemma_total_concat(a, b.drop_last(), weight);
        assert((a + b).drop_last() =~= a + b.drop_last());
    }
}

/// The sum over a table with one more edge at its end.
pub proof fn lemma_total_push(ds: Seq<Delegation>, e: Delegation, weight: spec_fn(Delegation) -> int)
    ensures
        total(ds.push(e), weight) == total(ds, weight) + weight(e),
{
    assert(ds.push(e).drop_last() =~= ds);
}

/// The sum over a table without the edge at `i`.
pub proof fn lemma_total_remove(ds: Seq<Delegation>, i: int, weight: spec_fn(Delegation) -> int)
    requires
        0 <= i < ds.len(),
    ensures
        total(ds.remove(i), weight) == total(ds, weight) - weight(ds[i]),
{
    let front = ds.take(i);
    let back = ds.skip(i + 1);
    assert(ds.remove(i) =~= front + back);
    assert(ds =~= front.push(ds[i]) + back);
    lemma_total_concat(front, back, weight);
    lemma_total_concat(front.push(ds[i]), back, weight);
    lemma_total_push(front, ds[i], weight);
}

/// The sum over a table in which the edge at `i` is replaced.
pub proof fn lemma_total_update(
    ds: Seq<Delegation>,
    i: int,
    e: Delegation,
    weight: spec_fn(Delegation) -> int,
)
    requires
        0 <= i < ds.len(),
    ensures
        total(ds.update(i, e), weight) == total(ds, weight) - weight(ds[i]) + weight(e),
{
    let front = ds.take(i);
    let back = ds.skip(i + 1);
    assert(ds.update(i, e) =~= front.push(e) + back);
    assert(ds =~= front.push(ds[i]) + back);
    lemma_total_concat(front.push(e), back, weight);
    lemma_total_concat(front.push(ds[i]), back, weight);
    lemma_total_push(front, ds[i], weight);
    lemma_total_push(front, e, weight);
}

/// The sum over a table of which no edge has a weight is nothing.
pub proof fn lemma_total_of_none(ds: Seq<Delegation>, weight: spec_fn(Delegation) -> int)
    requires
        forall|i: int| 0 <= i < ds.len() ==> weight(#[trigger] ds[i]) == 0,
    ensures
        total(ds, weight) == 0,
    decreases ds.len(),
{
    if ds.len() > 0 {
        lemma_total_of_none(ds.drop_last(), weight);
    }
}

/// Filtering the first edges and one more.
pub proof fn lemma_filter_step(ds: Seq<Delegation>, keep: spec_fn(Delegation) -> bool, n: int)
    requires
        0 <= n < ds.len(),
    ensures
        ds.take(n + 1).filter(keep) == if keep(ds[n]) {
            ds.take(n).filter(keep).push(ds[n])
        } else {
            ds.take(n).filter(keep)
        },
{
    reveal(Seq::filter);
    assert(ds.take(n + 1).drop_last() =~= ds.take(n));
}

/// The sum over the edges that a filter keeps is the sum over all edges
/// less the weights of those that go.
pub proof fn lemma_total_filter_split(
    ds: Seq<Delegation>,
    keep: spec_fn(Delegation) -> bool,
    weight: spec_fn(Delegation) -> int,
    dropped: spec_fn(Delegation) -> int,
)
    requires
        forall|e: Delegation|
            #[trigger] dropped(e) == if keep(e) {
                0
            } else {
                weight(e)
            },
    ensures
        total(ds.filter(keep), weight) == total(ds, weight) - total(ds, dropped),
    decreases ds.len(),
{
    reveal(Seq::filter);
    if ds.len() > 0 {
        let front = ds.drop_last();
        lemma_total_filter_split(front, keep, weight, dropped);
        if keep(ds.last()) {
            lemma_total_push(front.filter(keep), ds.last(), weight);
        }
    }
}

/// The sum over the edges that a filter keeps. Where only edges without a
/// weight go, the sum stays; where only such edges stay, nothing is left of
/// it; and where no weight is negative, it does not grow.
pub proof fn lemma_total_filter(
    ds: Seq<Delegation>,
    keep: spec_fn(Delegation) -> bool,
    weight: spec_fn(Delegation) -> int,
)
    ensures
        (forall|i: int| 0 <= i < ds.len() && !keep(#[trigger] ds[i]) ==> weight(ds[i]) == 0)
            ==> total(ds.filter(keep), weight) == total(ds, weight),
        (forall|i: int| 0 <= i < ds.len() && keep(#[trigger] ds[i]) ==> weight(ds[i]) == 0)
            ==> total(ds.filter(keep), weight) == 0,
        (forall|e: Delegation| #[trigger] weight(e) >= 0) ==> 0 <= total(ds.filter(keep), weight)
            <= total(ds, weight),
    decreases ds.len(),
{
    reveal(Seq::filter);
    if ds.len() > 0 {
        let front = ds.drop_last();
        lemma_total_filter(front, keep, weight);
        if keep(ds.last()) {
            lemma_total_push(front.filter(keep), ds.last(), weight);
        }
        if forall|i: int| 0 <= i < ds.len() && !keep(#[trigger] ds[i]) ==> weight(ds[i]) == 0 {
            assert forall|i: int| 0 <= i < front.len() && !keep(
                #[trigger] front[i],
            ) implies weight(front[i]) == 0 by {
                assert(front[i] == ds[i]);
            }
            assert(!keep(ds[ds.len() - 1]) ==> weight(ds[ds.len() - 1]) == 0);
        }
        if forall|i: int| 0 <= i < ds.len() && keep(#[trigger] ds[i]) ==> weight(ds[i]) == 0 {
            assert forall|i: int| 0 <= i < front.len() && keep(
                #[trigger] front[i],
            ) implies weight(front[i]) == 0 by {
                assert(front[i] == ds[i]);
            }
            assert(keep(ds[ds.len() - 1]) ==> weight(ds[ds.len() - 1]) == 0);
        }
    }
}

/// What a filter keeps of a table without repeated pairs: edges of the
/// table that pass the filter, and no pair twice.
pub proof fn lemma_filter_edges(ds: Seq<Delegation>, keep: spec_fn(Delegation) -> bool)
    requires
        pairs_unique(ds),
    ensures
        pairs_unique(ds.filter(keep)),
        forall|j: int|
            0 <= j < ds.filter(keep).len() ==> keep(#[trigger] ds.filter(keep)[j]) && ds.contains(
                ds.filter(keep)[j],
            ),
        forall|i: int| 0 <= i < ds.len() && keep(#[trigger] ds[i]) ==> ds.filter(keep).contains(ds[i]),
    decreases ds.len(),
{
    reveal(Seq::filter);
    if ds.len() > 0 {
        let front = ds.drop_last();
        let last = ds.last();
        lemma_filter_edges(front, keep);
        let kept = ds.filter(keep);
        let before = front.filter(keep);
        assert forall|j: int| 0 <= j < kept.len() implies keep(#[trigger] kept[j]) && ds.contains(
            kept[j],
        ) by {
            if j < before.len() {
                assert(kept[j] == before[j]);
                assert(front.contains(before[j]));
                let i = choose|i: int| 0 <= i < front.len() && front[i] == before[j];
                assert(ds[i] == kept[j]);
            } else {
                assert(ds[ds.len() - 1] == kept[j]);
            }
        }
        assert forall|i: int| 0 <= i < ds.len() && keep(#[trigger] ds[i]) implies kept.contains(
            ds[i],
        ) by {
            if i < front.len() {
                assert(front[i] == ds[i]);
                assert(before.contains(front[i]));
                let j = choose|j: int| 0 <= j < before.len() && before[j] == front[i];
                assert(kept[j] == ds[i]);
            } else {
                assert(kept[kept.len() - 1] == ds[i]);
            }
        }
        assert forall|i: int, j: int| 0 <= i < j < kept.len() implies !is_edge(
            #[trigger] kept[i],
            (#[trigger] kept[j]).delegator,
            kept[j].candidate,
        ) by {
            if j < before.len() {
                assert(kept[i] == before[i] && kept[j] == before[j]);
            } else {
                assert(kept[i] == before[i]);
                assert(front.contains(before[i]));
                let k = choose|k: int| 0 <= k < front.len() && front[k] == before[i];
                assert(ds[k] == kept[i] && ds[ds.len() - 1] == kept[j]);
            }
        }
    }
}

/// Looks the edge from `delegator` to `candidate` up in the table.
pub fn find_delegation(ds: &Vec<Delegation>, delegator: AccountId, candidate: AccountId) -> (r:
    Option<usize>)
    ensures
        match r {
            Some(k) => k < ds.len() && is_edge(ds@[k as int], delegator, candidate),
            None => !has_delegation(ds@, delegator, candidate),
        },
{
    let mut k: usize = 0;
    while k < ds.len()
        invariant
            k <= ds.len(),
            forall|j: int| 0 <= j < k ==> !is_edge(#[trigger] ds@[j], delegator, candidate),
        decreases ds.len() - k,
    {
        if ds[k].delegator == delegator && ds[k].candidate == candidate {
            return Some(k);
        }
        k += 1;
    }
    None
}

/// Lists the edges that lead to `candidate`.
pub fn find_edges_to(ds: &Vec<Delegation>, candidate: AccountId) -> (edges: Vec<Delegation>)
    ensures
        edges@ == edges_to(ds@, candidate),
{
    let mut edges: Vec<Delegation> = Vec::new();
    let mut k: usize = 0;
    assert(edges_to(ds@.take(0), candidate) =~= Seq::<Delegation>::empty()) by {
        reveal(Seq::filter);
    }
    while k < ds.len()
        invariant
            k <= ds.len(),
            edges@ == edges_to(ds@.take(k as int), candidate),
        decreases ds.len() - k,
    {
        proof {
            lemma_filter_step(ds@, |e: Delegation| e.candidate == candidate, k as int);
        }
        if ds[k].candidate == candidate {
            edges.push(ds[k]);
        }
        k += 1;
    }
    assert(ds@.take(ds.len() as int) =~= ds@);
    edges
}

/// Lists the edges that start at `delegator`.
pub fn find_edges_of(ds: &Vec<Delegation>, delegator: AccountId) -> (edges: Vec<Delegation>)
    ensures
        edges@ == edges_of(ds@, delegator),
{
    let mut edges: Vec<Delegation> = Vec::new();
    let mut k: usize = 0;
    assert(edges_of(ds@.take(0), delegator) =~= Seq::<Delegation>::empty()) by {
        reveal(Seq::filter);
    }
    while k < ds.len()
        invariant
            k <= ds.len(),
            edges@ == edges_of(ds@.take(k as int), delegator),
        decreases ds.len() - k,
    {
        proof {
            lemma_filter_step(ds@, |e: Delegation| e.delegator == delegator, k as int);
        }
        if ds[k].delegator == delegator {
            edges.push(ds[k]);
        }
        k += 1;
    }
    assert(ds@.take(ds.len() as int) =~= ds@);
    edges
}

/// Counts the candidates that `delegator` backs.
pub fn count_delegations(ds: &Vec<Delegation>, delegator: AccountId) -> (r: usize)
    ensures
        r == delegation_count(ds@, delegator),
{
    let mut count: usize = 0;
    let mut k: usize = 0;
    while k < ds.len()
        invariant
            k <= ds.len(),
            count <= k,
            count == delegation_count(ds@.take(k as int), delegator),
        decreases ds.len() - k,
    {
        proof {
            lemma_total_step(ds@, counting(delegator), k as int);
        }
        if ds[k].delegator == delegator {
            count += 1;
        }
        k += 1;
    }
    assert(ds@.take(ds.len() as int) =~= ds@);
    count
}

/// Sums up what `delegator` has delegated.
pub(crate) fn sum_delegated_by(ds: &Vec<Delegation>, delegator: AccountId) -> (r: Balance)
    requires
        delegated_by(ds@, delegator) <= Balance::MAX,
    ensures
        r == delegated_by(ds@, delegator),
{
    let mut sum: Balance = 0;
    let mut k: usize = 0;
    while k < ds.len()
        invariant
            k <= ds.len(),
            sum == delegated_by(ds@.take(k as int), delegator),
            delegated_by(ds@, delegator) <= Balance::MAX,
        decreases ds.len() - k,
    {
        proof {
            lemma_total_step(ds@, staking(delegator), k as int);
            lemma_total_grows(ds@, staking(delegator), k as int + 1);
        }
        if ds[k].delegator == delegator {
            sum += ds[k].amount;
        }
        k += 1;
    }
    assert(ds@.take(ds.len() as int) =~= ds@);
    sum
}

} // verus!
