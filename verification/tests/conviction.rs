use parachain_staking::conviction::{Conviction, StakeWeight};
use parachain_staking::error::Error;

fn all_convictions() -> Vec<Conviction> {
    vec![
        Conviction::Unlocked,
        Conviction::Locked1x,
        Conviction::Locked2x,
        Conviction::Locked3x,
        Conviction::Locked4x,
        Conviction::Locked5x,
        Conviction::Locked6x,
    ]
}

#[test]
fn unlocked_stake_is_a_tenth() {
    assert_eq!(Conviction::Unlocked.stake(100).stake, 10);
    assert_eq!(Conviction::Unlocked.stake(100).capital, 100);
}

#[test]
fn unlocked_stake_rounds_down() {
    assert_eq!(Conviction::Unlocked.stake(109).stake, 10);
    assert_eq!(Conviction::Unlocked.stake(9).stake, 0);
    assert_eq!(Conviction::Unlocked.stake(0).stake, 0);
    assert_eq!(Conviction::Unlocked.stake(u128::MAX).stake, u128::MAX / 10);
}

#[test]
fn locked_stake_is_a_multiple() {
    assert_eq!(Conviction::Locked1x.stake(100).stake, 100);
    assert_eq!(Conviction::Locked2x.stake(100).stake, 200);
    assert_eq!(Conviction::Locked3x.stake(100).stake, 300);
    assert_eq!(Conviction::Locked4x.stake(100).stake, 400);
    assert_eq!(Conviction::Locked5x.stake(100).stake, 500);
    assert_eq!(Conviction::Locked6x.stake(100).stake, 600);
}

#[test]
fn locked_stake_saturates() {
    assert_eq!(Conviction::Locked2x.stake(u128::MAX).stake, u128::MAX);
    assert_eq!(Conviction::Locked6x.stake(u128::MAX / 6 + 1).stake, u128::MAX);
    assert_eq!(Conviction::Locked6x.stake(u128::MAX / 6).stake, (u128::MAX / 6) * 6);
    assert_eq!(Conviction::Locked1x.stake(u128::MAX).stake, u128::MAX);
}

#[test]
fn stake_keeps_the_capital() {
    for c in all_convictions() {
        for capital in [0u128, 1, 9, 10, 100, 12345, u128::MAX / 7, u128::MAX] {
            let weight = c.stake(capital);
            assert_eq!(weight.capital, capital);
        }
    }
}

#[test]
fn stake_weight_holds_both_amounts() {
    assert_eq!(Conviction::Locked3x.stake(7), StakeWeight { stake: 21, capital: 7 });
}

#[test]
fn lock_periods_double_with_each_level() {
    assert_eq!(Conviction::Unlocked.lock_periods(), 0);
    assert_eq!(Conviction::Locked1x.lock_periods(), 1);
    assert_eq!(Conviction::Locked2x.lock_periods(), 2);
    assert_eq!(Conviction::Locked3x.lock_periods(), 4);
    assert_eq!(Conviction::Locked4x.lock_periods(), 8);
    assert_eq!(Conviction::Locked5x.lock_periods(), 16);
    assert_eq!(Conviction::Locked6x.lock_periods(), 32);
}

#[test]
fn codes_run_from_zero_to_six() {
    let codes: Vec<u8> = all_convictions().into_iter().map(u8::from).collect();
    assert_eq!(codes, vec![0, 1, 2, 3, 4, 5, 6]);
}

#[test]
fn code_round_trip() {
    for c in all_convictions() {
        assert_eq!(Conviction::try_from(u8::from(c)), Ok(c));
    }
    for code in 0u8..=6 {
        let c = Conviction::try_from(code).unwrap();
        assert_eq!(u8::from(c), code);
    }
}

#[test]
fn other_bytes_are_no_conviction() {
    assert_eq!(Conviction::try_from(7), Err(Error::InvalidConviction));
    assert_eq!(Conviction::try_from(8), Err(Error::InvalidConviction));
    assert_eq!(Conviction::try_from(255), Err(Error::InvalidConviction));
}

#[test]
fn default_is_unlocked() {
    assert_eq!(Conviction::default(), Conviction::Unlocked);
}

#[test]
fn bounds_are_the_weakest_and_the_strongest() {
    assert_eq!(Conviction::min_value(), Conviction::Unlocked);
    assert_eq!(Conviction::max_value(), Conviction::Locked6x);
}

#[test]
fn convictions_are_ordered_by_level() {
    let all = all_convictions();
    for i in 0..all.len() {
        for j in 0..all.len() {
            assert_eq!(all[i] < all[j], i < j);
            assert_eq!(all[i] <= all[j], i <= j);
            assert_eq!(all[i] == all[j], i == j);
            assert_eq!(all[i].cmp(&all[j]), i.cmp(&j));
        }
    }
    assert!(Conviction::Unlocked < Conviction::Locked1x);
    assert!(Conviction::Locked5x < Conviction::Locked6x);
}
