//! Strength of commitment behind a stake.

use vstd::prelude::*;
use vstd::arithmetic::power2::{lemma2_to64, pow2};
use core::cmp::Ordering;
use crate::arithmetic::{checked_div, checked_mul, max_value, zero};
use crate::error::Error;
use crate::Balance;

verus! {

/// A value denoting the strength of conviction behind a stake. Convictions
/// are ordered by their level.
#[derive(Copy, Clone, Debug, PartialEq, Eq, Ord, Structural)]
pub enum Conviction {
    /// A tenth of the capital counts, and nothing is locked.
    Unlocked,
    /// The capital counts once, locked for one period.
    Locked1x,
    /// The capital counts twice, locked for two periods.
    Locked2x,
    /// The capital counts three times, locked for four periods.
    Locked3x,
    /// The capital counts four times, locked for eight periods.
    Locked4x,
    /// The capital counts five times, locked for sixteen periods.
    Locked5x,
    /// The capital counts six times, locked for thirty-two periods.
    Locked6x,
}

/// The weight that a capital has under a conviction.
#[derive(Copy, Clone, Debug, PartialEq, Eq, Structural)]
pub struct StakeWeight {
    /// The weight counted for the capital.
    pub stake: Balance,
    /// The capital behind the weight.
    pub capital: Balance,
}

impl Conviction {
    /// The numeric code of the conviction: its level, from 0 to 6.
    pub open spec fn code(self) -> u8 {
        match self {
            Conviction::Unlocked => 0,
            Conviction::Locked1x => 1,
            Conviction::Locked2x => 2,
            Conviction::Locked3x => 3,
            Conviction::Locked4x => 4,
            Conviction::Locked5x => 5,
            Conviction::Locked6x => 6,
        }
    }

    /// The number of periods a lock lasts: none without a lock, one at the
    /// first level, and twice as many with each further level.
    pub open spec fn spec_lock_periods(self) -> nat {
        if self.code() == 0 {
            0
        } else {
            pow2((self.code() - 1) as nat)
        }
    }

    /// The weight counted for `capital`: a tenth of it, rounded down, without
    /// a lock; else the capital times the level, or the largest balance where
    /// the product exceeds it.
    pub open spec fn spec_stake(self, capital: Balance) -> int {
        if self.code() == 0 {
            capital as int / 10
        } else if capital * self.code() <= Balance::MAX {
            capital * self.code()
        } else {
            Balance::MAX as int
        }
    }

    /// The number of periods for which the conviction locks a stake.
    pub fn lock_periods(self) -> (r: u32)
        ensures
            r == self.spec_lock_periods(),
    {
        proof {
            lemma2_to64();
        }
        match self {
            Conviction::Unlocked => 0,
            Conviction::Locked1x => 1,
            Conviction::Locked2x => 2,
            Conviction::Locked3x => 4,
            Conviction::Locked4x => 8,
            Conviction::Locked5x => 16,
            Conviction::Locked6x => 32,
        }
    }

    /// The weight of `capital` staked with this conviction.
    pub fn stake(self, capital: Balance) -> (r: StakeWeight)
        ensures
            r.capital == capital,
            r.stake == self.spec_stake(capital),
    {
        let stake = match self {
            Conviction::Unlocked => match checked_div(capital, 10u8.into()) {
                Some(tenth) => tenth,
                None => zero(),
            },
            x => match checked_mul(capital, u8::from(x).into()) {
                Some(product) => product,
                None => max_value(),
            },
        };
        StakeWeight { stake, capital }
    }

    /// The weakest conviction.
    pub fn min_value() -> (r: Conviction)
        ensures
            r == Conviction::Unlocked,
            forall|c: Conviction| r.code() <= c.code(),
    {
        Conviction::Unlocked
    }

    /// The strongest conviction.
    pub fn max_value() -> (r: Conviction)
        ensures
            r == Conviction::Locked6x,
            forall|c: Conviction| c.code() <= r.code(),
    {
        Conviction::Locked6x
    }
}

impl PartialOrd for Conviction {
    fn partial_cmp(&self, other: &Conviction) -> (r: Option<Ordering>) {
        let own = u8::from(*self);
        let others = u8::from(*other);
        if own < others {
            Some(Ordering::Less)
        } else if own == others {
            Some(Ordering::Equal)
        } else {
            Some(Ordering::Greater)
        }
    }
}

impl vstd::std_specs::cmp::PartialOrdSpecImpl for Conviction {
    open spec fn obeys_partial_cmp_spec() -> bool {
        true
    }

    open spec fn partial_cmp_spec(&self, other: &Conviction) -> Option<Ordering> {
        if self.code() < other.code() {
            Some(Ordering::Less)
        } else if self.code() == other.code() {
            Some(Ordering::Equal)
        } else {
            Some(Ordering::Greater)
        }
    }
}

impl Default for Conviction {
    fn default() -> (r: Conviction)
        ensures
            r == Conviction::Unlocked,
    {
        Conviction::Unlocked
    }
}

impl From<Conviction> for u8 {
    fn from(c: Conviction) -> (r: u8) {
        match c {
            Conviction::Unlocked => 0,
            Conviction::Locked1x => 1,
            Conviction::Locked2x => 2,
            Conviction::Locked3x => 3,
            Conviction::Locked4x => 4,
            Conviction::Locked5x => 5,
            Conviction::Locked6x => 6,
        }
    }
}

impl vstd::std_specs::convert::FromSpecImpl<Conviction> for u8 {
    open spec fn obeys_from_spec() -> bool {
        true
    }

    open spec fn from_spec(c: Conviction) -> u8 {
        c.code()
    }
}

impl TryFrom<u8> for Conviction {
    type Error = Error;

    fn try_from(i: u8) -> (r: Result<Conviction, Error>) {
        Ok(
            match i {
                0 => Conviction::Unlocked,
                1 => Conviction::Locked1x,
                2 => Conviction::Locked2x,
                3 => Conviction::Locked3x,
                4 => Conviction::Locked4x,
                5 => Conviction::Locked5x,
                6 => Conviction::Locked6x,
                _ => return Err(Error::InvalidConviction),
            },
        )
    }
}

impl vstd::std_specs::convert::TryFromSpecImpl<u8> for Conviction {
    open spec fn obeys_try_from_spec() -> bool {
        true
    }

    open spec fn try_from_spec(i: u8) -> Result<Conviction, Error> {
        Conviction::decode(i)
    }
}

impl Conviction {
    /// What a byte decodes to: the conviction whose numeric code it is, and
    /// an error for a byte that is the code of none.
    pub open spec fn decode(i: u8) -> Result<Conviction, Error> {
        if i == 0 {
            Ok(Conviction::Unlocked)
        } else if i == 1 {
            Ok(Conviction::Locked1x)
        } else if i == 2 {
            Ok(Conviction::Locked2x)
        } else if i == 3 {
            Ok(Conviction::Locked3x)
        } else if i == 4 {
            Ok(Conviction::Locked4x)
        } else if i == 5 {
            Ok(Conviction::Locked5x)
        } else if i == 6 {
            Ok(Conviction::Locked6x)
        } else {
            Err(Error::InvalidConviction)
        }
    }
}

/// Whatever the conviction and the capital, the weight is an amount: it
/// never leaves the range of a balance.
pub proof fn lemma_stake_is_an_amount(c: Conviction, capital: Balance)
    ensures
        0 <= c.spec_stake(capital) <= Balance::MAX,
{
}

/// Encoding a conviction as its code and decoding that code gives the
/// conviction back; a byte up to 6 decodes to the conviction of which it is
/// the code; and a byte above 6 decodes to nothing.
pub proof fn lemma_code_round_trip(c: Conviction, i: u8)
    ensures
        c.code() <= 6,
        Conviction::decode(c.code()) == Ok::<Conviction, Error>(c),
        i <= 6 ==> Conviction::decode(i).is_ok() && Conviction::decode(i).unwrap().code() == i,
        i > 6 ==> Conviction::decode(i) == Err::<Conviction, Error>(Error::InvalidConviction),
{
}

} // verus!
