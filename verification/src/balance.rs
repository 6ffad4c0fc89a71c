use vstd::prelude::*;

verus! {

/// The unsigned balance domain that all bonds, delegations and custody
/// amounts live in.
pub type Balance = u128;

/// Checked addition over the balance domain: `None` exactly when the
/// mathematical sum leaves the domain.
pub fn checked_add(a: Balance, b: Balance) -> (r: Option<Balance>)
    ensures
        a + b <= Balance::MAX ==> r == Some((a + b) as Balance),
        a + b > Balance::MAX ==> r is None,
{
    if a <= Balance::MAX - b {
        Some(a + b)
    } else {
        None
    }
}

/// Checked subtraction over the balance domain: `None` exactly when the
/// mathematical difference would be negative.
pub fn checked_sub(a: Balance, b: Balance) -> (r: Option<Balance>)
    ensures
        b <= a ==> r == Some((a - b) as Balance),
        b > a ==> r is None,
{
    if b <= a {
        Some(a - b)
    } else {
        None
    }
}

/// The mathematical sum of `a` and `b`, clamped to the balance domain.
pub open spec fn spec_saturating_add(a: Balance, b: Balance) -> Balance {
    if a + b <= Balance::MAX {
        (a + b) as Balance
    } else {
        Balance::MAX
    }
}

/// Saturating addition over the balance domain: never wraps, never fails.
pub fn saturating_add(a: Balance, b: Balance) -> (r: Balance)
    ensures
        r == spec_saturating_add(a, b),
{
    if a <= Balance::MAX - b {
        a + b
    } else {
        Balance::MAX
    }
}

} // verus!
