//! Locks that overlay one another on the same funds.
//!
//! A lock freezes an amount until a block height. Locks on one account do
//! not add up: while several are pending, the largest of them is what is
//! frozen. A schedule keeps, of all the locks placed, those that no other
//! lock covers, the earliest first.

use vstd::prelude::*;
use crate::{Balance, BlockNumber};

verus! {

/// An amount frozen until a block height.
#[derive(Copy, Clone, Debug, PartialEq, Eq, Structural)]
pub struct Lock {
    /// The frozen amount.
    pub amount: Balance,
    /// The first block at which the amount may be released.
    pub unlock_at: BlockNumber,
}

impl Lock {
    /// This lock freezes at least as much as `other`, for at least as long.
    pub open spec fn covers(self, other: Lock) -> bool {
        self.amount >= other.amount && self.unlock_at >= other.unlock_at
    }

    /// What this lock alone freezes after block `block`.
    pub open spec fn frozen_after(self, block: int) -> int {
        if self.unlock_at > block {
            self.amount as int
        } else {
            0
        }
    }
}

/// A schedule: no lock is empty, the locks come in order of their unlock
/// heights, and each freezes more than those that end later, so that none
/// covers another.
pub open spec fn is_schedule(s: Seq<Lock>) -> bool {
    &&& forall|i: int| 0 <= i < s.len() ==> (#[trigger] s[i]).amount > 0
    &&& forall|i: int, j: int|
        0 <= i < j < s.len() ==> (#[trigger] s[i]).unlock_at < (#[trigger] s[j]).unlock_at
            && s[i].amount > s[j].amount
}

/// The amount frozen after block `block`: the largest amount among the
/// locks that are still pending then, and nothing where none is.
pub open spec fn locked_at(s: Seq<Lock>, block: int) -> int
    decreases s.len(),
{
    if s.len() == 0 {
        0
    } else {
        let rest = locked_at(s.drop_last(), block);
        let own = s.last().frozen_after(block);
        if own > rest {
            own
        } else {
            rest
        }
    }
}

/// The amount frozen as long as no lock has been released.
pub open spec fn locked_total(s: Seq<Lock>) -> int {
    locked_at(s, -1)
}

/// Some lock of the schedule covers `lock`.
pub open spec fn is_covered(s: Seq<Lock>, lock: Lock) -> bool {
    exists|i: int| 0 <= i < s.len() && (#[trigger] s[i]).covers(lock)
}

/// The schedule after `lock` is placed on it. An empty lock, or one that
/// a lock of the schedule covers, changes nothing. Otherwise the locks of
/// a greater amount stay in front of the new one and those of a later
/// unlock height behind it; all others the new lock covers, and they go.
pub open spec fn overlay(s: Seq<Lock>, lock: Lock) -> Seq<Lock> {
    if lock.amount == 0 || is_covered(s, lock) {
        s
    } else {
        s.filter(|m: Lock| m.amount > lock.amount).push(lock) + s.filter(
            |m: Lock| m.unlock_at > lock.unlock_at,
        )
    }
}

/// The locks that are still pending at block `now`.
pub open spec fn pending(s: Seq<Lock>, now: BlockNumber) -> Seq<Lock> {
    s.filter(|m: Lock| m.unlock_at > now)
}

/// Some lock of the schedule may be released at block `now`.
pub open spec fn has_due(s: Seq<Lock>, now: BlockNumber) -> bool {
    exists|i: int| 0 <= i < s.len() && (#[trigger] s[i]).unlock_at <= now
}

/// Filtering keeps a prefix, where the predicate holds on that prefix only.
pub proof fn lemma_filter_prefix(s: Seq<Lock>, p: spec_fn(Lock) -> bool, n: int)
    requires
        0 <= n <= s.len(),
        forall|k: int| 0 <= k < n ==> p(#[trigger] s[k]),
        forall|k: int| n <= k < s.len() ==> !p(#[trigger] s[k]),
    ensures
        s.filter(p) == s.take(n),
    decreases s.len(),
{
    reveal(Seq::filter);
    if s.len() == 0 {
        assert(s.filter(p) =~= s.take(n));
    } else {
        let front = s.drop_last();
        if n == s.len() {
            lemma_filter_prefix(front, p, n - 1);
            assert(front.take(n - 1) =~= front);
            assert(front.push(s.last()) =~= s.take(n));
        } else {
            lemma_filter_prefix(front, p, n);
            assert(front.take(n) =~= s.take(n));
        }
    }
}

/// Filtering keeps a suffix, where the predicate holds on that suffix only.
pub proof fn lemma_filter_suffix(s: Seq<Lock>, p: spec_fn(Lock) -> bool, n: int)
    requires
        0 <= n <= s.len(),
        forall|k: int| 0 <= k < n ==> !p(#[trigger] s[k]),
        forall|k: int| n <= k < s.len() ==> p(#[trigger] s[k]),
    ensures
        s.filter(p) == s.skip(n),
    decreases s.len(),
{
    reveal(Seq::filter);
    if s.len() == 0 {
        assert(s.filter(p) =~= s.skip(n));
    } else {
        let front = s.drop_last();
        if n == s.len() {
            lemma_filter_suffix(front, p, n - 1);
            assert(front.skip(n - 1) =~= s.skip(n));
        } else {
            lemma_filter_suffix(front, p, n);
            assert(front.skip(n).push(s.last()) =~= s.skip(n));
        }
    }
}

/// In a schedule the amount frozen after a block is that of the first lock
/// still pending then: the lock at `n`, where the `n` locks before it are
/// due and it is not.
pub proof fn lemma_locked_at_first_pending(s: Seq<Lock>, block: int, n: int)
    requires
        is_schedule(s),
        0 <= n <= s.len(),
        forall|k: int| 0 <= k < n ==> (#[trigger] s[k]).unlock_at <= block,
        n < s.len() ==> s[n].unlock_at > block,
    ensures
        locked_at(s, block) == if n < s.len() {
            s[n].amount as int
        } else {
            0
        },
    decreases s.len(),
{
    if s.len() > 0 {
        let front = s.drop_last();
        assert(is_schedule(front));
        if n == s.len() {
            lemma_locked_at_first_pending(front, block, n - 1);
        } else if n == s.len() - 1 {
            lemma_locked_at_first_pending(front, block, n);
        } else {
            lemma_locked_at_first_pending(front, block, n);
            assert(s[n].amount > s[s.len() - 1].amount);
        }
    }
}

/// What is frozen after a block is at least what each lock freezes then.
pub proof fn lemma_locked_at_bounds(s: Seq<Lock>, block: int, i: int)
    requires
        0 <= i < s.len(),
    ensures
        locked_at(s, block) >= s[i].frozen_after(block) >= 0,
    decreases s.len(),
{
    if i < s.len() - 1 {
        lemma_locked_at_bounds(s.drop_last(), block, i);
    }
}

/// Where the locks of a schedule that freeze more than `amount` end.
pub proof fn lemma_split_by_amount(s: Seq<Lock>, amount: Balance) -> (n: int)
    requires
        is_schedule(s),
    ensures
        0 <= n <= s.len(),
        forall|k: int| 0 <= k < n ==> (#[trigger] s[k]).amount > amount,
        forall|k: int| n <= k < s.len() ==> (#[trigger] s[k]).amount <= amount,
    decreases s.len(),
{
    if s.len() == 0 {
        0
    } else if s.last().amount > amount {
        assert forall|k: int| 0 <= k < s.len() implies (#[trigger] s[k]).amount > amount by {
            if k < s.len() - 1 {
                assert(s[k].amount > s[s.len() - 1].amount);
            }
        }
        s.len() as int
    } else {
        let front = s.drop_last();
        assert(is_schedule(front));
        let n = lemma_split_by_amount(front, amount);
        assert forall|k: int| 0 <= k < n implies (#[trigger] s[k]).amount > amount by {
            assert(s[k] == front[k]);
        }
        assert forall|k: int| n <= k < s.len() implies (#[trigger] s[k]).amount <= amount by {
            if k < s.len() - 1 {
                assert(s[k] == front[k]);
            }
        }
        n
    }
}

/// Where the locks of a schedule that are due at `block` end.
pub proof fn lemma_split_by_height(s: Seq<Lock>, block: int) -> (n: int)
    requires
        is_schedule(s),
    ensures
        0 <= n <= s.len(),
        forall|k: int| 0 <= k < n ==> (#[trigger] s[k]).unlock_at <= block,
        forall|k: int| n <= k < s.len() ==> (#[trigger] s[k]).unlock_at > block,
    decreases s.len(),
{
    if s.len() == 0 {
        0
    } else if s.last().unlock_at <= block {
        assert forall|k: int| 0 <= k < s.len() implies (#[trigger] s[k]).unlock_at <= block by {
            if k < s.len() - 1 {
                assert(s[k].unlock_at < s[s.len() - 1].unlock_at);
            }
        }
        s.len() as int
    } else {
        let front = s.drop_last();
        assert(is_schedule(front));
        let n = lemma_split_by_height(front, block);
        assert forall|k: int| 0 <= k < n implies (#[trigger] s[k]).unlock_at <= block by {
            assert(s[k] == front[k]);
        }
        assert forall|k: int| n <= k < s.len() implies (#[trigger] s[k]).unlock_at > block by {
            if k < s.len() - 1 {
                assert(s[k] == front[k]);
            }
        }
        n
    }
}

/// Placing a lock on a schedule gives a schedule.
pub proof fn lemma_overlay_is_schedule(s: Seq<Lock>, lock: Lock)
    requires
        is_schedule(s),
    ensures
        is_schedule(overlay(s, lock)),
{
    if !(lock.amount == 0 || is_covered(s, lock)) {
        let above = lemma_split_by_amount(s, lock.amount);
        let due = lemma_split_by_height(s, lock.unlock_at as int);
        lemma_overlay_shape(s, lock, above, due);
    }
}

/// The shape of a schedule after a lock that nothing covers is placed.
proof fn lemma_overlay_shape(s: Seq<Lock>, lock: Lock, above: int, due: int)
    requires
        is_schedule(s),
        lock.amount > 0,
        !is_covered(s, lock),
        0 <= above <= s.len(),
        forall|k: int| 0 <= k < above ==> (#[trigger] s[k]).amount > lock.amount,
        forall|k: int| above <= k < s.len() ==> (#[trigger] s[k]).amount <= lock.amount,
        0 <= due <= s.len(),
        forall|k: int| 0 <= k < due ==> (#[trigger] s[k]).unlock_at <= lock.unlock_at,
        forall|k: int| due <= k < s.len() ==> (#[trigger] s[k]).unlock_at > lock.unlock_at,
    ensures
        above <= due,
        overlay(s, lock) == s.take(above).push(lock) + s.skip(due),
        is_schedule(overlay(s, lock)),
{
    if above > due {
        assert(s[due].covers(lock));
    }
    lemma_filter_prefix(s, |m: Lock| m.amount > lock.amount, above);
    lemma_filter_suffix(s, |m: Lock| m.unlock_at > lock.unlock_at, due);
    let out = s.take(above).push(lock) + s.skip(due);
    assert forall|i: int, j: int| 0 <= i < j < out.len() implies (#[trigger] out[i]).unlock_at < (
    #[trigger] out[j]).unlock_at && out[i].amount > out[j].amount by {
        if i < above {
            assert(out[i] == s[i]);
            assert(!s[i].covers(lock));
        }
        if j > above {
            assert(out[j] == s[j - above - 1 + due]);
            assert(!s[j - above - 1 + due].covers(lock));
        }
    }
    assert forall|i: int| 0 <= i < out.len() implies (#[trigger] out[i]).amount > 0 by {
        if i < above {
            assert(out[i] == s[i]);
        }
        if i > above {
            assert(out[i] == s[i - above - 1 + due]);
        }
    }
}

/// Locks overlay and never add up: after a lock is placed, what is frozen
/// after any block is the larger of what was frozen then before and what
/// the new lock alone freezes then.
pub proof fn lemma_overlay_takes_maximum(s: Seq<Lock>, lock: Lock, block: int)
    requires
        is_schedule(s),
    ensures
        locked_at(overlay(s, lock), block) == if lock.frozen_after(block) > locked_at(s, block) {
            lock.frozen_after(block)
        } else {
            locked_at(s, block)
        },
{
    let first = lemma_split_by_height(s, block);
    lemma_locked_at_first_pending(s, block, first);
    if lock.amount == 0 {
    } else if is_covered(s, lock) {
        let i = choose|i: int| 0 <= i < s.len() && (#[trigger] s[i]).covers(lock);
        lemma_locked_at_bounds(s, block, i);
    } else {
        let above = lemma_split_by_amount(s, lock.amount);
        let due = lemma_split_by_height(s, lock.unlock_at as int);
        lemma_overlay_shape(s, lock, above, due);
        let out = overlay(s, lock);
        if first < above {
            assert(out[first] == s[first]);
            assert forall|k: int| 0 <= k < first implies (#[trigger] out[k]).unlock_at
                <= block by {
                assert(out[k] == s[k]);
            }
            lemma_locked_at_first_pending(out, block, first);
        } else if lock.unlock_at > block {
            assert(out[above] == lock);
            assert forall|k: int| 0 <= k < above implies (#[trigger] out[k]).unlock_at
                <= block by {
                assert(out[k] == s[k]);
            }
            lemma_locked_at_first_pending(out, block, above);
        } else {
            if first < due {
                assert(s[first].unlock_at <= lock.unlock_at);
            }
            let at = above + 1 + first - due;
            assert forall|k: int| 0 <= k < at implies (#[trigger] out[k]).unlock_at <= block by {
                if k < above {
                    assert(out[k] == s[k]);
                } else if k > above {
                    assert(out[k] == s[k - above - 1 + due]);
                }
            }
            if at < out.len() {
                assert(out[at] == s[first]);
            }
            lemma_locked_at_first_pending(out, block, at);
        }
    }
}

/// A schedule without its first locks is a schedule.
pub proof fn lemma_schedule_parts(s: Seq<Lock>, n: int)
    requires
        is_schedule(s),
        0 <= n <= s.len(),
    ensures
        is_schedule(s.take(n)),
        is_schedule(s.skip(n)),
{
}

/// The number of locks at the front of a schedule that freeze more than
/// `amount`; no lock behind them does.
fn count_above(locks: &Vec<Lock>, amount: Balance) -> (n: usize)
    requires
        is_schedule(locks@),
    ensures
        n <= locks.len(),
        forall|k: int| 0 <= k < n ==> (#[trigger] locks@[k]).amount > amount,
        forall|k: int| n <= k < locks.len() ==> (#[trigger] locks@[k]).amount <= amount,
{
    let mut n: usize = 0;
    while n < locks.len() && locks[n].amount > amount
        invariant
            n <= locks.len(),
            is_schedule(locks@),
            forall|k: int| 0 <= k < n ==> (#[trigger] locks@[k]).amount > amount,
        decreases locks.len() - n,
    {
        n += 1;
    }
    n
}

/// The number of locks at the front of a schedule that are due at
/// `height`; no lock behind them is.
fn count_due(locks: &Vec<Lock>, height: BlockNumber) -> (n: usize)
    requires
        is_schedule(locks@),
    ensures
        n <= locks.len(),
        forall|k: int| 0 <= k < n ==> (#[trigger] locks@[k]).unlock_at <= height,
        forall|k: int| n <= k < locks.len() ==> (#[trigger] locks@[k]).unlock_at > height,
{
    let mut n: usize = 0;
    while n < locks.len() && locks[n].unlock_at <= height
        invariant
            n <= locks.len(),
            is_schedule(locks@),
            forall|k: int| 0 <= k < n ==> (#[trigger] locks@[k]).unlock_at <= height,
        decreases locks.len() - n,
    {
        n += 1;
    }
    n
}

/// Whether some lock of the schedule covers `lock`.
fn covered(locks: &Vec<Lock>, lock: Lock) -> (r: bool)
    ensures
        r == is_covered(locks@, lock),
{
    let mut i: usize = 0;
    while i < locks.len()
        invariant
            i <= locks.len(),
            forall|k: int| 0 <= k < i ==> !(#[trigger] locks@[k]).covers(lock),
        decreases locks.len() - i,
    {
        if locks[i].amount >= lock.amount && locks[i].unlock_at >= lock.unlock_at {
            return true;
        }
        i += 1;
    }
    false
}

/// Appends the locks of `from` between `start` and `end` to `out`.
fn append_range(out: &mut Vec<Lock>, from: &Vec<Lock>, start: usize, end: usize)
    requires
        start <= end <= from.len(),
    ensures
        final(out)@ == old(out)@ + from@.subrange(start as int, end as int),
{
    let mut k: usize = start;
    while k < end
        invariant
            start <= k <= end <= from.len(),
            out@ == old(out)@ + from@.subrange(start as int, k as int),
        decreases end - k,
    {
        out.push(from[k]);
        k += 1;
        assert(out@ =~= old(out)@ + from@.subrange(start as int, k as int));
    }
    assert(out@ =~= old(out)@ + from@.subrange(start as int, end as int));
}

/// The amount that a schedule freezes as long as nothing is released.
pub(crate) fn total_locked(locks: &Vec<Lock>) -> (r: Balance)
    requires
        is_schedule(locks@),
    ensures
        r == locked_total(locks@),
{
    proof {
        lemma_locked_at_first_pending(locks@, -1, 0);
    }
    if locks.len() == 0 {
        0
    } else {
        locks[0].amount
    }
}

/// The amount that a schedule freezes after block `block`.
pub(crate) fn locked_after(locks: &Vec<Lock>, block: BlockNumber) -> (r: Balance)
    requires
        is_schedule(locks@),
    ensures
        r == locked_at(locks@, block as int),
{
    let n = count_due(locks, block);
    proof {
        lemma_locked_at_first_pending(locks@, block as int, n as int);
    }
    if n < locks.len() {
        locks[n].amount
    } else {
        0
    }
}

/// Places `lock` on a schedule.
pub(crate) fn place(locks: &mut Vec<Lock>, lock: Lock)
    requires
        is_schedule(old(locks)@),
    ensures
        is_schedule(final(locks)@),
        final(locks)@ == overlay(old(locks)@, lock),
{
    if lock.amount == 0 || covered(locks, lock) {
        return ;
    }
    let above = count_above(locks, lock.amount);
    let due = count_due(locks, lock.unlock_at);
    let ghost before = locks@;
    proof {
        lemma_overlay_shape(before, lock, above as int, due as int);
    }
    let mut out: Vec<Lock> = Vec::new();
    append_range(&mut out, locks, 0, above);
    out.push(lock);
    append_range(&mut out, locks, due, locks.len());
    proof {
        assert(before.subrange(0, above as int) =~= before.take(above as int));
        assert(before.subrange(due as int, before.len() as int) =~= before.skip(due as int));
        assert(out@ =~= overlay(before, lock));
    }
    *locks = out;
}

/// Releases the locks of a schedule that are due at block `now`, and
/// returns by how much the frozen amount falls.
pub(crate) fn release_due(locks: &mut Vec<Lock>, now: BlockNumber) -> (released: Balance)
    requires
        is_schedule(old(locks)@),
    ensures
        is_schedule(final(locks)@),
        final(locks)@ == pending(old(locks)@, now),
        released == locked_total(old(locks)@) - locked_total(final(locks)@),
        released > 0 <==> has_due(old(locks)@, now),
{
    let due = count_due(locks, now);
    let held = total_locked(locks);
    let ghost before = locks@;
    let mut out: Vec<Lock> = Vec::new();
    append_range(&mut out, locks, due, locks.len());
    proof {
        lemma_filter_suffix(before, |m: Lock| m.unlock_at > now, due as int);
        assert(before.subrange(due as int, before.len() as int) =~= before.skip(due as int));
        assert(out@ =~= before.skip(due as int));
        lemma_schedule_parts(before, due as int);
        lemma_locked_at_first_pending(before, -1, 0);
        lemma_locked_at_first_pending(out@, -1, 0);
        if due > 0 {
            assert(before[0].unlock_at <= now);
            if due < before.len() {
                assert(before[0].amount > before[due as int].amount);
                assert(out@[0] == before[due as int]);
            }
        }
    }
    *locks = out;
    held - total_locked(locks)
}

} // verus!
