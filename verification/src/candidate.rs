use vstd::prelude::*;

use crate::balance::{spec_saturating_add, Balance};
use crate::errors::DposError;

verus! {

/// Result alias used by the candidate accounting methods: the value on
/// success, a recoverable [`DposError`] otherwise.
pub type DispatchResultWithValue<T> = Result<T, DposError>;

/// Whether a candidate currently offers itself for validator selection.
#[derive(Clone, Copy, Debug, PartialEq, Eq, Structural)]
pub enum ValidatorStatus {
    Online,
    Offline,
}

/// Per-candidate record: bonded collateral, aggregate delegated stake and
/// the online/offline flag.
#[derive(Clone, Copy, Debug, PartialEq, Eq, Structural)]
pub struct CandidateDetail {
    pub bond: Balance,
    pub total_delegations: Balance,
    pub status: ValidatorStatus,
}

impl CandidateDetail {
    /// A fresh record: the given bond, no delegations yet, online.
    pub fn new(bond: Balance) -> (r: Self)
        ensures
            r == (CandidateDetail {
                bond,
                total_delegations: 0,
                status: ValidatorStatus::Online,
            }),
    {
        CandidateDetail { total_delegations: 0, bond, status: ValidatorStatus::Online }
    }

    /// Adds `amount` to the aggregate delegated stake with checked
    /// arithmetic; on overflow the record is left unchanged and
    /// `ArithmeticOverflow` is reported.
    pub fn add_delegated_amount(&mut self, amount: Balance) -> (r: DispatchResultWithValue<
        Balance,
    >)
        ensures
            old(self).total_delegations + amount <= Balance::MAX ==> {
                &&& *final(self) == (CandidateDetail {
                    total_delegations: (old(self).total_delegations + amount) as Balance,
                    ..*old(self)
                })
                &&& r == Ok::<Balance, DposError>(final(self).total_delegations)
            },
            old(self).total_delegations + amount > Balance::MAX ==> {
                &&& *final(self) == *old(self)
                &&& r == Err::<Balance, DposError>(DposError::ArithmeticOverflow)
            },
    {
        match crate::balance::checked_add(self.total_delegations, amount) {
            Some(t) => {
                self.total_delegations = t;
                Ok(t)
            },
            None => Err(DposError::ArithmeticOverflow),
        }
    }

    /// Subtracts `amount` from the aggregate delegated stake with checked
    /// arithmetic; on underflow the record is left unchanged and
    /// `ArithmeticUnderflow` is reported.
    pub fn sub_delegated_amount(&mut self, amount: Balance) -> (r: DispatchResultWithValue<
        Balance,
    >)
        ensures
            amount <= old(self).total_delegations ==> {
                &&& *final(self) == (CandidateDetail {
                    total_delegations: (old(self).total_delegations - amount) as Balance,
                    ..*old(self)
                })
                &&& r == Ok::<Balance, DposError>(final(self).total_delegations)
            },
            amount > old(self).total_delegations ==> {
                &&& *final(self) == *old(self)
                &&& r == Err::<Balance, DposError>(DposError::ArithmeticUnderflow)
            },
    {
        match crate::balance::checked_sub(self.total_delegations, amount) {
            Some(t) => {
                self.total_delegations = t;
                Ok(t)
            },
            None => Err(DposError::ArithmeticUnderflow),
        }
    }

    /// Replaces the bonded amount; delegations and status are untouched.
    pub fn update_bond(&mut self, bond: Balance)
        ensures
            *final(self) == (CandidateDetail { bond, ..*old(self) }),
    {
        self.bond = bond;
    }

    /// The candidate's whole stake weight: bond plus delegations, clamped to
    /// the balance domain so the query itself can never fail.
    pub fn total(&self) -> (r: Balance)
        ensures
            r == spec_saturating_add(self.total_delegations, self.bond),
    {
        crate::balance::saturating_add(self.total_delegations, self.bond)
    }

    /// Flips Online to Offline and back; balances are untouched.
    pub fn toggle_status(&mut self)
        ensures
            *final(self) == (CandidateDetail {
                status: match old(self).status {
                    ValidatorStatus::Online => ValidatorStatus::Offline,
                    ValidatorStatus::Offline => ValidatorStatus::Online,
                },
                ..*old(self)
            }),
    {
        self.status = match self.status {
            ValidatorStatus::Online => ValidatorStatus::Offline,
            ValidatorStatus::Offline => ValidatorStatus::Online,
        }
    }
}

} // verus!
