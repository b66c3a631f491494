//! The stake ledger: the locks that each account holds.
//!
//! The ledger keeps books only. It records which amount of an account is
//! frozen until which block; freezing and thawing the funds themselves is
//! left to the balance ledger, which is told the amounts returned here.

use vstd::prelude::*;
use std::collections::HashMap;
use crate::conviction::{Conviction, StakeWeight};
use crate::error::Error;
use crate::lock::{
    has_due, is_schedule, lemma_filter_suffix, lemma_split_by_height, locked_after, locked_at,
    locked_total, overlay, pending, place, release_due, total_locked, Lock,
};
use crate::{AccountId, Balance, BlockNumber};

verus! {

broadcast use vstd::std_specs::hash::group_hash_axioms;

/// The locks of every account, as a map from the accounts that hold a lock
/// to their schedules.
pub type Locks = Map<AccountId, Seq<Lock>>;

/// The schedule of `account`: empty for an account that holds no lock.
pub open spec fn locks_in(locks: Locks, account: AccountId) -> Seq<Lock> {
    if locks.contains_key(account) {
        locks[account]
    } else {
        Seq::empty()
    }
}

/// Every recorded schedule is a schedule, and none is empty.
pub open spec fn locks_wf(locks: Locks) -> bool {
    forall|a: AccountId| #[trigger]
        locks.contains_key(a) ==> is_schedule(locks[a]) && locks[a].len() > 0
}

/// The locks after `lock` is placed on `account`.
pub open spec fn with_lock(locks: Locks, account: AccountId, lock: Lock) -> Locks {
    let schedule = overlay(locks_in(locks, account), lock);
    if schedule.len() == 0 {
        locks
    } else {
        locks.insert(account, schedule)
    }
}

/// The locks after those of `account` that are due at `now` are released.
pub open spec fn with_release(locks: Locks, account: AccountId, now: BlockNumber) -> Locks {
    let schedule = pending(locks_in(locks, account), now);
    if schedule.len() == 0 {
        locks.remove(account)
    } else {
        locks.insert(account, schedule)
    }
}

/// The block at which a lock placed at block `now` for `periods` periods of
/// `period_length` blocks ends.
pub open spec fn unlock_height(now: BlockNumber, periods: u32, period_length: BlockNumber) -> int {
    now + periods * period_length
}

/// Computes the block at which a lock ends, where that block can be
/// numbered.
pub fn checked_unlock_height(now: BlockNumber, periods: u32, period_length: BlockNumber) -> (r:
    Option<BlockNumber>)
    ensures
        unlock_height(now, periods, period_length) <= BlockNumber::MAX ==> r == Some(
            unlock_height(now, periods, period_length) as BlockNumber,
        ),
        unlock_height(now, periods, period_length) > BlockNumber::MAX ==> r.is_none(),
{
    let periods_wide: BlockNumber = periods.into();
    match periods_wide.checked_mul(period_length) {
        Some(duration) => now.checked_add(duration),
        None => None,
    }
}

/// The books of all locks.
pub struct StakeLedger {
    period_length: BlockNumber,
    accounts: HashMap<AccountId, Vec<Lock>>,
}

impl View for StakeLedger {
    type V = Locks;

    closed spec fn view(&self) -> Locks {
        Map::new(|a: AccountId| self.accounts@.contains_key(a), |a: AccountId| self.accounts@[a]@)
    }
}

impl StakeLedger {
    /// The number of blocks in one lock period.
    pub closed spec fn period(&self) -> BlockNumber {
        self.period_length
    }

    /// The ledger is well formed: so are its locks.
    pub open spec fn wf(&self) -> bool {
        locks_wf(self@)
    }

    /// The schedule of `account`.
    pub open spec fn locks_of(&self, account: AccountId) -> Seq<Lock> {
        locks_in(self@, account)
    }

    /// A ledger without locks, whose lock periods last `period_length`
    /// blocks.
    pub fn new(period_length: BlockNumber) -> (r: StakeLedger)
        ensures
            r.wf(),
            r@ == Map::<AccountId, Seq<Lock>>::empty(),
            r.period() == period_length,
    {
        let r = StakeLedger { period_length, accounts: HashMap::new() };
        assert(r@ =~= Map::<AccountId, Seq<Lock>>::empty());
        r
    }

    /// The number of blocks in one lock period.
    pub fn period_length(&self) -> (r: BlockNumber)
        ensures
            r == self.period(),
    {
        self.period_length
    }

    /// Takes the schedule of `account` out of the books.
    fn take_schedule(&mut self, account: AccountId) -> (locks: Vec<Lock>)
        requires
            old(self).wf(),
        ensures
            locks@ == old(self).locks_of(account),
            is_schedule(locks@),
            final(self)@ == old(self)@.remove(account),
            final(self).wf(),
            final(self).period() == old(self).period(),
    {
        let found = self.accounts.remove(&account);
        assert(self@ =~= old(self)@.remove(account));
        match found {
            Some(locks) => {
                assert(old(self)@.contains_key(account));
                locks
            },
            None => Vec::new(),
        }
    }

    /// Puts the schedule of `account` into the books.
    fn put_schedule(&mut self, account: AccountId, locks: Vec<Lock>)
        requires
            old(self).wf(),
            !old(self)@.contains_key(account),
            is_schedule(locks@),
        ensures
            final(self)@ == if locks@.len() == 0 {
                old(self)@
            } else {
                old(self)@.insert(account, locks@)
            },
            final(self).wf(),
            final(self).period() == old(self).period(),
    {
        if locks.len() > 0 {
            let ghost schedule = locks@;
            self.accounts.insert(account, locks);
            assert(self@ =~= old(self)@.insert(account, schedule));
        }
    }

    /// Records a lock of `amount` on `account`, placed at block
    /// `current_block` for `duration_periods` periods, and returns the
    /// amount of the account that is frozen from then on. The lock overlays
    /// those that the account holds already. Where the block at which the
    /// lock would end cannot be numbered, nothing is recorded.
    pub fn place_lock(
        &mut self,
        account: AccountId,
        amount: Balance,
        duration_periods: u32,
        current_block: BlockNumber,
    ) -> (r: Result<Balance, Error>)
        requires
            old(self).wf(),
        ensures
            final(self).wf(),
            final(self).period() == old(self).period(),
            match r {
                Ok(frozen) => {
                    let end = unlock_height(current_block, duration_periods, old(self).period());
                    &&& end <= BlockNumber::MAX
                    &&& final(self)@ == with_lock(
                        old(self)@,
                        account,
                        Lock { amount, unlock_at: end as BlockNumber },
                    )
                    &&& frozen == locked_total(final(self).locks_of(account))
                },
                Err(e) => {
                    &&& e == Error::ArithmeticOverflow
                    &&& unlock_height(current_block, duration_periods, old(self).period())
                        > BlockNumber::MAX
                    &&& final(self)@ == old(self)@
                },
            },
    {
        match checked_unlock_height(current_block, duration_periods, self.period_length) {
            Some(unlock_at) => Ok(self.place_lock_until(account, amount, unlock_at)),
            None => Err(Error::ArithmeticOverflow),
        }
    }

    /// Weighs `capital` staked by `account` with `conviction` at block
    /// `current_block`, and locks the capital for the periods that the
    /// conviction asks for. A conviction that asks for no period places no
    /// lock at all.
    pub fn lock_with_conviction(
        &mut self,
        account: AccountId,
        capital: Balance,
        conviction: Conviction,
        current_block: BlockNumber,
    ) -> (r: Result<StakeWeight, Error>)
        requires
            old(self).wf(),
        ensures
            final(self).wf(),
            final(self).period() == old(self).period(),
            match r {
                Ok(weight) => {
                    let periods = conviction.spec_lock_periods();
                    let end = current_block + periods * old(self).period();
                    &&& weight.capital == capital
                    &&& weight.stake == conviction.spec_stake(capital)
                    &&& end <= BlockNumber::MAX
                    &&& final(self)@ == if periods == 0 {
                        old(self)@
                    } else {
                        with_lock(
                            old(self)@,
                            account,
                            Lock { amount: capital, unlock_at: end as BlockNumber },
                        )
                    }
                },
                Err(e) => {
                    &&& e == Error::ArithmeticOverflow
                    &&& current_block + conviction.spec_lock_periods() * old(self).period()
                        > BlockNumber::MAX
                    &&& final(self)@ == old(self)@
                },
            },
    {
        let periods = conviction.lock_periods();
        if periods > 0 {
            if let Err(e) = self.place_lock(account, capital, periods, current_block) {
                return Err(e);
            }
        }
        Ok(conviction.stake(capital))
    }

    /// Records a lock of `amount` on `account` that ends at block
    /// `unlock_at`, and returns the amount of the account that is frozen
    /// from then on.
    pub fn place_lock_until(
        &mut self,
        account: AccountId,
        amount: Balance,
        unlock_at: BlockNumber,
    ) -> (frozen: Balance)
        requires
            old(self).wf(),
        ensures
            final(self).wf(),
            final(self).period() == old(self).period(),
            final(self)@ == with_lock(old(self)@, account, Lock { amount, unlock_at }),
            frozen == locked_total(final(self).locks_of(account)),
    {
        let mut locks = self.take_schedule(account);
        place(&mut locks, Lock { amount, unlock_at });
        let frozen = total_locked(&locks);
        let ghost schedule = locks@;
        self.put_schedule(account, locks);
        proof {
            if schedule.len() > 0 {
                assert(self@ =~= old(self)@.insert(account, schedule));
            } else {
                assert(old(self).locks_of(account).len() == 0) by {
                    lemma_overlay_keeps_locks(
                        old(self).locks_of(account),
                        Lock { amount, unlock_at },
                    );
                }
                assert(self@ =~= old(self)@);
            }
        }
        frozen
    }

    /// Releases the locks of `account` that are due at block
    /// `current_block`, and returns by how much the frozen amount of the
    /// account falls. Where no lock is due, nothing changes.
    pub fn try_unlock(&mut self, account: AccountId, current_block: BlockNumber) -> (r: Result<
        Balance,
        Error,
    >)
        requires
            old(self).wf(),
        ensures
            final(self).wf(),
            final(self).period() == old(self).period(),
            match r {
                Ok(released) => {
                    &&& has_due(old(self).locks_of(account), current_block)
                    &&& final(self)@ == with_release(old(self)@, account, current_block)
                    &&& released == locked_total(old(self).locks_of(account)) - locked_total(
                        final(self).locks_of(account),
                    )
                    &&& released > 0
                },
                Err(e) => {
                    &&& e == Error::NothingToUnlock
                    &&& !has_due(old(self).locks_of(account), current_block)
                    &&& final(self)@ == old(self)@
                },
            },
    {
        let mut locks = self.take_schedule(account);
        let released = release_due(&mut locks, current_block);
        let ghost schedule = locks@;
        self.put_schedule(account, locks);
        if released > 0 {
            proof {
                if schedule.len() > 0 {
                    assert(self@ =~= old(self)@.insert(account, schedule));
                }
            }
            Ok(released)
        } else {
            proof {
                lemma_nothing_due(old(self).locks_of(account), current_block);
                if schedule.len() > 0 {
                    assert(self@ =~= old(self)@);
                } else {
                    assert(self@ =~= old(self)@);
                }
            }
            Err(Error::NothingToUnlock)
        }
    }

    /// The amount of `account` that is frozen as long as it releases
    /// nothing.
    pub fn locked(&self, account: AccountId) -> (r: Balance)
        requires
            self.wf(),
        ensures
            r == locked_total(self.locks_of(account)),
    {
        match self.accounts.get(&account) {
            Some(locks) => {
                assert(self@.contains_key(account));
                total_locked(locks)
            },
            None => 0,
        }
    }

    /// The amount of `account` that its locks freeze after block `block`.
    pub fn locked_after(&self, account: AccountId, block: BlockNumber) -> (r: Balance)
        requires
            self.wf(),
        ensures
            r == locked_at(self.locks_of(account), block as int),
    {
        match self.accounts.get(&account) {
            Some(locks) => {
                assert(self@.contains_key(account));
                locked_after(locks, block)
            },
            None => 0,
        }
    }

    /// The lock of `account` that covers its frozen amount: the largest it
    /// holds, which is the first to end.
    pub fn effective_lock(&self, account: AccountId) -> (r: Option<Lock>)
        requires
            self.wf(),
        ensures
            r == if self.locks_of(account).len() == 0 {
                None
            } else {
                Some(self.locks_of(account)[0])
            },
    {
        match self.accounts.get(&account) {
            Some(locks) => {
                assert(self@.contains_key(account));
                Some(locks[0])
            },
            None => None,
        }
    }

    /// The locks that `account` holds, the first to end first.
    pub fn locks(&self, account: AccountId) -> (r: Vec<Lock>)
        requires
            self.wf(),
        ensures
            r@ == self.locks_of(account),
    {
        match self.accounts.get(&account) {
            Some(locks) => {
                assert(self@.contains_key(account));
                let r = locks.clone();
                assert(r@ =~= locks@);
                r
            },
            None => Vec::new(),
        }
    }

    /// The number of locks that `account` holds.
    pub fn lock_count(&self, account: AccountId) -> (r: usize)
        requires
            self.wf(),
        ensures
            r == self.locks_of(account).len(),
    {
        match self.accounts.get(&account) {
            Some(locks) => {
                assert(self@.contains_key(account));
                locks.len()
            },
            None => 0,
        }
    }
}

/// A schedule on which a lock was placed is empty only if it was empty
/// before.
pub proof fn lemma_overlay_keeps_locks(s: Seq<Lock>, lock: Lock)
    requires
        is_schedule(s),
    ensures
        overlay(s, lock).len() == 0 ==> s.len() == 0,
{
}

/// Where releasing changes nothing, nothing was due.
pub proof fn lemma_nothing_due(s: Seq<Lock>, now: BlockNumber)
    requires
        is_schedule(s),
    ensures
        pending(s, now) == s <==> !has_due(s, now),
{
    let due = lemma_split_by_height(s, now as int);
    lemma_filter_suffix(s, |m: Lock| m.unlock_at > now, due);
    if due > 0 {
        assert(s[0].unlock_at <= now);
        assert(s.skip(due).len() < s.len());
    } else {
        assert(s.skip(0) =~= s);
    }
}

/// Releasing is safe to repeat: once the due locks are released, none is
/// due at the same block.
pub proof fn lemma_release_settles(s: Seq<Lock>, now: BlockNumber)
    requires
        is_schedule(s),
    ensures
        is_schedule(pending(s, now)),
        !has_due(pending(s, now), now),
        pending(pending(s, now), now) == pending(s, now),
{
    let due = lemma_split_by_height(s, now as int);
    lemma_filter_suffix(s, |m: Lock| m.unlock_at > now, due);
    let rest = s.skip(due);
    assert(is_schedule(rest));
    assert forall|i: int| 0 <= i < rest.len() implies (#[trigger] rest[i]).unlock_at > now by {
        assert(rest[i] == s[i + due]);
    }
    lemma_nothing_due(rest, now);
}

} // verus!
