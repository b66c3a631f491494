use parachain_staking::conviction::{Conviction, StakeWeight};
use parachain_staking::error::Error;
use parachain_staking::ledger::{checked_unlock_height, StakeLedger};
use parachain_staking::lock::Lock;

const ALICE: u64 = 1;
const BOB: u64 = 2;

fn lock(amount: u128, unlock_at: u64) -> Lock {
    Lock { amount, unlock_at }
}

#[test]
fn lock_overlay() {
    // Periods of 10 blocks: one period from block 0 ends at 10, two at 20.
    let mut ledger = StakeLedger::new(10);
    assert_eq!(ledger.place_lock(ALICE, 50, 1, 0), Ok(50));
    assert_eq!(ledger.place_lock(ALICE, 30, 2, 0), Ok(50));
    assert_eq!(ledger.effective_lock(ALICE), Some(lock(50, 10)));
    assert_eq!(ledger.locked(ALICE), 50);
    assert_eq!(ledger.lock_count(ALICE), 2);
    // Before block 10 the larger lock is what is frozen, never the sum.
    assert_eq!(ledger.locked_after(ALICE, 0), 50);
    assert_eq!(ledger.locked_after(ALICE, 9), 50);
    assert_eq!(ledger.locked_after(ALICE, 10), 30);
    assert_eq!(ledger.locked_after(ALICE, 19), 30);
    assert_eq!(ledger.locked_after(ALICE, 20), 0);
    // At block 10 the first lock goes and the second stays pending.
    assert_eq!(ledger.try_unlock(ALICE, 10), Ok(20));
    assert_eq!(ledger.effective_lock(ALICE), Some(lock(30, 20)));
    assert_eq!(ledger.locked(ALICE), 30);
    // At block 20 nothing remains locked.
    assert_eq!(ledger.try_unlock(ALICE, 20), Ok(30));
    assert_eq!(ledger.effective_lock(ALICE), None);
    assert_eq!(ledger.locked(ALICE), 0);
    assert_eq!(ledger.lock_count(ALICE), 0);
}

#[test]
fn unlock_height_is_block_plus_periods_times_length() {
    assert_eq!(checked_unlock_height(7, 3, 5), Some(22));
    assert_eq!(checked_unlock_height(7, 0, 5), Some(7));
    assert_eq!(checked_unlock_height(0, 32, 100), Some(3200));
    let mut ledger = StakeLedger::new(5);
    assert_eq!(ledger.period_length(), 5);
    assert_eq!(ledger.place_lock(ALICE, 1, 3, 7), Ok(1));
    assert_eq!(ledger.effective_lock(ALICE), Some(lock(1, 22)));
}

#[test]
fn unlock_height_out_of_range() {
    assert_eq!(checked_unlock_height(u64::MAX, 1, 1), None);
    assert_eq!(checked_unlock_height(0, 2, u64::MAX), None);
    assert_eq!(checked_unlock_height(1, 1, u64::MAX), None);
    assert_eq!(checked_unlock_height(0, 1, u64::MAX), Some(u64::MAX));
    assert_eq!(checked_unlock_height(u64::MAX, 0, u64::MAX), Some(u64::MAX));
}

#[test]
fn place_lock_rejects_a_height_out_of_range() {
    let mut ledger = StakeLedger::new(10);
    assert_eq!(ledger.place_lock(ALICE, 5, 1, 3), Ok(5));
    assert_eq!(ledger.place_lock(ALICE, 50, 1, u64::MAX), Err(Error::ArithmeticOverflow));
    assert_eq!(ledger.effective_lock(ALICE), Some(lock(5, 13)));
    assert_eq!(ledger.lock_count(ALICE), 1);
}

#[test]
fn covered_lock_is_ignored() {
    let mut ledger = StakeLedger::new(1);
    assert_eq!(ledger.place_lock_until(ALICE, 50, 20), 50);
    assert_eq!(ledger.place_lock_until(ALICE, 30, 10), 50);
    assert_eq!(ledger.place_lock_until(ALICE, 50, 20), 50);
    assert_eq!(ledger.place_lock_until(ALICE, 50, 19), 50);
    assert_eq!(ledger.place_lock_until(ALICE, 49, 20), 50);
    assert_eq!(ledger.lock_count(ALICE), 1);
    assert_eq!(ledger.effective_lock(ALICE), Some(lock(50, 20)));
}

#[test]
fn covering_lock_replaces() {
    let mut ledger = StakeLedger::new(1);
    assert_eq!(ledger.place_lock_until(ALICE, 50, 10), 50);
    assert_eq!(ledger.place_lock_until(ALICE, 30, 20), 50);
    assert_eq!(ledger.place_lock_until(ALICE, 10, 30), 50);
    assert_eq!(ledger.lock_count(ALICE), 3);
    // Covers the second and the third, not the first.
    assert_eq!(ledger.place_lock_until(ALICE, 40, 30), 50);
    assert_eq!(ledger.lock_count(ALICE), 2);
    assert_eq!(ledger.locked_after(ALICE, 9), 50);
    assert_eq!(ledger.locked_after(ALICE, 10), 40);
    assert_eq!(ledger.locked_after(ALICE, 29), 40);
    assert_eq!(ledger.locked_after(ALICE, 30), 0);
    // Covers everything.
    assert_eq!(ledger.place_lock_until(ALICE, 60, 30), 60);
    assert_eq!(ledger.lock_count(ALICE), 1);
    assert_eq!(ledger.effective_lock(ALICE), Some(lock(60, 30)));
}

#[test]
fn same_height_keeps_the_larger_amount() {
    let mut ledger = StakeLedger::new(1);
    assert_eq!(ledger.place_lock_until(ALICE, 30, 10), 30);
    assert_eq!(ledger.place_lock_until(ALICE, 50, 10), 50);
    assert_eq!(ledger.lock_count(ALICE), 1);
    assert_eq!(ledger.effective_lock(ALICE), Some(lock(50, 10)));
}

#[test]
fn empty_lock_is_not_recorded() {
    let mut ledger = StakeLedger::new(1);
    assert_eq!(ledger.place_lock_until(ALICE, 0, 10), 0);
    assert_eq!(ledger.lock_count(ALICE), 0);
    assert_eq!(ledger.effective_lock(ALICE), None);
    assert_eq!(ledger.try_unlock(ALICE, 10), Err(Error::NothingToUnlock));
}

#[test]
fn nothing_to_unlock() {
    let mut ledger = StakeLedger::new(10);
    assert_eq!(ledger.try_unlock(ALICE, 100), Err(Error::NothingToUnlock));
    assert_eq!(ledger.place_lock(ALICE, 50, 1, 0), Ok(50));
    assert_eq!(ledger.try_unlock(ALICE, 9), Err(Error::NothingToUnlock));
    assert_eq!(ledger.locked(ALICE), 50);
    assert_eq!(ledger.try_unlock(BOB, 10), Err(Error::NothingToUnlock));
}

#[test]
fn unlock_is_safe_to_repeat() {
    let mut ledger = StakeLedger::new(10);
    assert_eq!(ledger.place_lock(ALICE, 50, 1, 0), Ok(50));
    assert_eq!(ledger.place_lock(ALICE, 30, 2, 0), Ok(50));
    assert_eq!(ledger.try_unlock(ALICE, 10), Ok(20));
    assert_eq!(ledger.try_unlock(ALICE, 10), Err(Error::NothingToUnlock));
    assert_eq!(ledger.try_unlock(ALICE, 10), Err(Error::NothingToUnlock));
    assert_eq!(ledger.locked(ALICE), 30);
    assert_eq!(ledger.effective_lock(ALICE), Some(lock(30, 20)));
}

#[test]
fn unlock_releases_all_that_is_due_at_once() {
    let mut ledger = StakeLedger::new(10);
    assert_eq!(ledger.place_lock(ALICE, 50, 1, 0), Ok(50));
    assert_eq!(ledger.place_lock(ALICE, 30, 2, 0), Ok(50));
    assert_eq!(ledger.place_lock(ALICE, 10, 3, 0), Ok(50));
    assert_eq!(ledger.try_unlock(ALICE, 25), Ok(40));
    assert_eq!(ledger.effective_lock(ALICE), Some(lock(10, 30)));
    assert_eq!(ledger.try_unlock(ALICE, 1000), Ok(10));
    assert_eq!(ledger.locked(ALICE), 0);
}

#[test]
fn accounts_do_not_share_locks() {
    let mut ledger = StakeLedger::new(10);
    assert_eq!(ledger.place_lock(ALICE, 50, 1, 0), Ok(50));
    assert_eq!(ledger.place_lock(BOB, 70, 2, 0), Ok(70));
    assert_eq!(ledger.locked(ALICE), 50);
    assert_eq!(ledger.locked(BOB), 70);
    assert_eq!(ledger.try_unlock(ALICE, 10), Ok(50));
    assert_eq!(ledger.locked(ALICE), 0);
    assert_eq!(ledger.locked(BOB), 70);
}

#[test]
fn zero_period_lock_is_due_at_once() {
    let mut ledger = StakeLedger::new(10);
    assert_eq!(ledger.place_lock(ALICE, 50, 0, 4), Ok(50));
    assert_eq!(ledger.effective_lock(ALICE), Some(lock(50, 4)));
    assert_eq!(ledger.locked_after(ALICE, 3), 50);
    assert_eq!(ledger.locked_after(ALICE, 4), 0);
    assert_eq!(ledger.try_unlock(ALICE, 4), Ok(50));
}

#[test]
fn schedule_keeps_uncovered_locks_in_order() {
    let mut ledger = StakeLedger::new(1);
    ledger.place_lock_until(ALICE, 30, 20);
    ledger.place_lock_until(ALICE, 50, 10);
    ledger.place_lock_until(ALICE, 10, 30);
    assert_eq!(ledger.locks(ALICE), vec![lock(50, 10), lock(30, 20), lock(10, 30)]);
    ledger.place_lock_until(ALICE, 20, 25);
    assert_eq!(
        ledger.locks(ALICE),
        vec![lock(50, 10), lock(30, 20), lock(20, 25), lock(10, 30)]
    );
    ledger.place_lock_until(ALICE, 30, 26);
    assert_eq!(ledger.locks(ALICE), vec![lock(50, 10), lock(30, 26), lock(10, 30)]);
    assert_eq!(ledger.locked(ALICE), 50);
    assert_eq!(ledger.locked_after(ALICE, 10), 30);
    assert_eq!(ledger.locked_after(ALICE, 26), 10);
    assert_eq!(ledger.try_unlock(ALICE, 26), Ok(40));
    assert_eq!(ledger.locks(ALICE), vec![lock(10, 30)]);
    assert_eq!(ledger.try_unlock(ALICE, 26), Err(Error::NothingToUnlock));
    assert_eq!(ledger.locks(ALICE), vec![lock(10, 30)]);
    assert!(ledger.locks(BOB).is_empty());
}

#[test]
fn overlay_takes_the_maximum() {
    // What is frozen after a block, once a lock is placed, is the larger of
    // what was frozen before and what the new lock freezes.
    let placed = [lock(50, 10), lock(30, 20), lock(70, 5), lock(30, 40), lock(60, 15)];
    let mut ledger = StakeLedger::new(1);
    for new in placed {
        let before: Vec<u128> = (0u64..50).map(|block| ledger.locked_after(ALICE, block)).collect();
        ledger.place_lock_until(ALICE, new.amount, new.unlock_at);
        for block in 0u64..50 {
            let alone = if new.unlock_at > block { new.amount } else { 0 };
            assert_eq!(ledger.locked_after(ALICE, block), before[block as usize].max(alone));
        }
    }
}

#[test]
fn conviction_locks_the_capital() {
    let mut ledger = StakeLedger::new(10);
    assert_eq!(
        ledger.lock_with_conviction(ALICE, 100, Conviction::Locked3x, 5),
        Ok(StakeWeight { stake: 300, capital: 100 })
    );
    // Four periods of ten blocks from block 5 on.
    assert_eq!(ledger.effective_lock(ALICE), Some(lock(100, 45)));
    assert_eq!(
        ledger.lock_with_conviction(ALICE, 60, Conviction::Locked6x, 5),
        Ok(StakeWeight { stake: 360, capital: 60 })
    );
    assert_eq!(ledger.locks(ALICE), vec![lock(100, 45), lock(60, 325)]);
}

#[test]
fn no_conviction_places_no_lock() {
    let mut ledger = StakeLedger::new(10);
    assert_eq!(
        ledger.lock_with_conviction(ALICE, 100, Conviction::Unlocked, 5),
        Ok(StakeWeight { stake: 10, capital: 100 })
    );
    assert_eq!(ledger.effective_lock(ALICE), None);
    assert_eq!(
        ledger.lock_with_conviction(ALICE, 100, Conviction::Unlocked, u64::MAX),
        Ok(StakeWeight { stake: 10, capital: 100 })
    );
    assert_eq!(ledger.lock_count(ALICE), 0);
}

#[test]
fn conviction_lock_out_of_range() {
    let mut ledger = StakeLedger::new(10);
    assert_eq!(
        ledger.lock_with_conviction(ALICE, 100, Conviction::Locked1x, u64::MAX - 9),
        Err(Error::ArithmeticOverflow)
    );
    assert_eq!(ledger.lock_count(ALICE), 0);
    assert_eq!(
        ledger.lock_with_conviction(ALICE, 100, Conviction::Locked1x, u64::MAX - 10),
        Ok(StakeWeight { stake: 100, capital: 100 })
    );
    assert_eq!(ledger.effective_lock(ALICE), Some(lock(100, u64::MAX)));
}
