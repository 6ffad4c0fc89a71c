use vstd::prelude::*;

use std::collections::BTreeMap;

use crate::balance::Balance;

verus! {

/// The account identifier used throughout the crate.
pub type AccountId = u64;

/// An externally supplied list of (candidate, bond) pairs.
pub type CandidateSet = Vec<(AccountId, Balance)>;

/// An externally supplied list of (candidate, bond, reserved) triples, the
/// form initial validator sets arrive in at genesis.
pub type CandidateDelegationSet = Vec<(AccountId, Balance, Balance)>;

/// The validator mapping a genesis triple list denotes: each triple's
/// candidate keyed to its bond, later entries winning on a repeated key.
pub open spec fn genesis_validators(s: Seq<(AccountId, Balance, Balance)>) -> Map<
    AccountId,
    Balance,
>
    decreases s.len(),
{
    if s.len() == 0 {
        Map::<AccountId, Balance>::empty()
    } else {
        genesis_validators(s.drop_last()).insert(s.last().0, s.last().1)
    }
}

/// An immutable capture of stake weights at a period boundary: each
/// validator candidate's self-bond, and each (delegator, candidate)
/// delegated amount. Both mappings iterate in ascending key order, so two
/// builds from the same source state are identical.
#[derive(Debug)]
pub struct EpochSnapshot {
    pub validators: BTreeMap<AccountId, Balance>,
    pub delegations: BTreeMap<(AccountId, AccountId), Balance>,
}

impl EpochSnapshot {
    /// An empty snapshot: no validators, no delegations.
    pub fn default() -> (r: Self)
        ensures
            r.validators@ == Map::<AccountId, Balance>::empty(),
            r.delegations@ == Map::<(AccountId, AccountId), Balance>::empty(),
    {
        EpochSnapshot { delegations: BTreeMap::new(), validators: BTreeMap::new() }
    }

    /// Records `value` as the self-bond of validator `id`.
    pub fn add_validator(self: &mut Self, id: AccountId, value: Balance)
        ensures
            final(self).validators@ == old(self).validators@.insert(id, value),
            final(self).delegations@ == old(self).delegations@,
    {
        proof {
            broadcast use vstd::laws_cmp::group_laws_cmp;

        }
        self.validators.insert(id, value);
    }

    /// Records `value` as the amount delegator `id` has delegated to
    /// `candidate`.
    pub fn add_delegator(self: &mut Self, id: AccountId, candidate: AccountId, value: Balance)
        ensures
            final(self).validators@ == old(self).validators@,
            final(self).delegations@ == old(self).delegations@.insert((id, candidate), value),
    {
        proof {
            broadcast use vstd::laws_cmp::group_laws_cmp;

        }
        self.delegations.insert((id, candidate), value);
    }

    /// The minimal bootstrap snapshot used before any delegation exists:
    /// `validators` is populated from the candidate and bond of each triple,
    /// `delegations` stays empty.
    pub fn from_genesis(set: &CandidateDelegationSet) -> (r: Self)
        ensures
            r.validators@ == genesis_validators(set@),
            r.delegations@ == Map::<(AccountId, AccountId), Balance>::empty(),
    {
        let mut snap = EpochSnapshot::default();
        let n: usize = set.len();
        let mut i: usize = 0;
        while i < n
            invariant
                i <= n,
                n == set@.len(),
                snap.validators@ == genesis_validators(set@.take(i as int)),
                snap.delegations@ == Map::<(AccountId, AccountId), Balance>::empty(),
            decreases n - i,
        {
            let entry = set[i];
            snap.add_validator(entry.0, entry.1);
            proof {
                assert(set@.take((i + 1) as int).drop_last() =~= set@.take(i as int));
                assert(set@.take((i + 1) as int).last() == set@[i as int]);
            }
            i = i + 1;
        }
        proof {
            assert(set@.take(n as int) =~= set@);
        }
        snap
    }
}

} // verus!
