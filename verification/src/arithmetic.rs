//! Checked arithmetic on balances, as the runtime's numeric traits give it.

use vstd::prelude::*;
use crate::Balance;

verus! {

/// Calls `sp_runtime::traits::CheckedMul::checked_mul` on two balances.
/// Trusted: the product where it fits a balance, `None` where it does not.
#[verifier::external_body]
pub(crate) fn checked_mul(a: Balance, b: Balance) -> (r: Option<Balance>)
    ensures
        a * b <= Balance::MAX ==> r == Some((a * b) as Balance),
        a * b > Balance::MAX ==> r.is_none(),
{
    sp_runtime::traits::CheckedMul::checked_mul(&a, &b)
}

/// Calls `sp_runtime::traits::CheckedDiv::checked_div` on two balances.
/// Trusted: the quotient rounded down, `None` for a zero divisor.
#[verifier::external_body]
pub(crate) fn checked_div(a: Balance, b: Balance) -> (r: Option<Balance>)
    ensures
        b != 0 ==> r == Some((a / b) as Balance),
        b == 0 ==> r.is_none(),
{
    sp_runtime::traits::CheckedDiv::checked_div(&a, &b)
}

/// Calls `sp_runtime::traits::Zero::zero` for the balance type.
/// Trusted: the result is the number zero.
#[verifier::external_body]
pub(crate) fn zero() -> (r: Balance)
    ensures
        r == 0,
{
    sp_runtime::traits::Zero::zero()
}

/// Calls `sp_runtime::traits::Bounded::max_value` for the balance type.
/// Trusted: the result is the largest balance.
#[verifier::external_body]
pub(crate) fn max_value() -> (r: Balance)
    ensures
        r == Balance::MAX,
{
    sp_runtime::traits::Bounded::max_value()
}

} // verus!
