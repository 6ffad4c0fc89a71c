use vstd::prelude::*;

use std::collections::BTreeMap;

use crate::balance::Balance;
use crate::candidate::{CandidateDetail, DispatchResultWithValue, ValidatorStatus};
use crate::errors::DposError;
use crate::snapshot::{AccountId, EpochSnapshot};

verus! {

broadcast use
    vstd::laws_cmp::group_laws_cmp,
    vstd::seq_lib::lemma_seq_contains_after_push,
    vstd::set::group_set_axioms,
;

/// Free and held funds of one account in the custody ledger. Funds a hold
/// reserves move from `free` to `held`; a release moves them back.
#[derive(Clone, Copy, Debug, PartialEq, Eq, Structural)]
pub struct AccountBalance {
    pub free: Balance,
    pub held: Balance,
}

/// The recorded stake one delegator has allocated to one candidate.
#[derive(Clone, Copy, Debug, PartialEq, Eq, Structural)]
pub struct DelegationInfo {
    pub amount: Balance,
}

/// The sum, over a finite set of ledger keys, of the amounts `m` records
/// for them.
pub open spec fn sum_of(s: Set<(AccountId, AccountId)>, m: Map<(AccountId, AccountId), Balance>) -> int
    decreases s.len(), when s.finite()
{
    if !s.finite() || s.len() == 0 {
        0
    } else {
        let k = s.choose();
        m[k] + sum_of(s.remove(k), m)
    }
}

/// A sum of balances is never negative.
pub proof fn lemma_sum_nonneg(s: Set<(AccountId, AccountId)>, m: Map<(AccountId, AccountId), Balance>)
    requires
        s.finite(),
    ensures
        sum_of(s, m) >= 0,
    decreases s.len(),
{
    if s.len() != 0 {
        lemma_sum_nonneg(s.remove(s.choose()), m);
    }
}

/// Splitting one member off a sum: the sum is that member's amount plus
/// the sum over the rest.
pub proof fn lemma_sum_remove(
    s: Set<(AccountId, AccountId)>,
    m: Map<(AccountId, AccountId), Balance>,
    k: (AccountId, AccountId),
)
    requires
        s.finite(),
        s.contains(k),
    ensures
        sum_of(s, m) == m[k] + sum_of(s.remove(k), m),
    decreases s.len(),
{
    let c = s.choose();
    assert(s.contains(c));
    if c != k {
        lemma_sum_remove(s.remove(c), m, k);
        lemma_sum_remove(s.remove(k), m, c);
        assert(s.remove(c).remove(k) =~= s.remove(k).remove(c));
    }
}

/// Two ledgers that agree on every key of a set give that set the same sum.
pub proof fn lemma_sum_congruent(
    s: Set<(AccountId, AccountId)>,
    m1: Map<(AccountId, AccountId), Balance>,
    m2: Map<(AccountId, AccountId), Balance>,
)
    requires
        s.finite(),
        forall|k: (AccountId, AccountId)| #[trigger] s.contains(k) ==> m1[k] == m2[k],
    ensures
        sum_of(s, m1) == sum_of(s, m2),
    decreases s.len(),
{
    if s.len() != 0 {
        let k = s.choose();
        assert(s.contains(k));
        lemma_sum_congruent(s.remove(k), m1, m2);
    }
}

/// Every member's amount is bounded by the whole sum.
pub proof fn lemma_sum_bounds_member(
    s: Set<(AccountId, AccountId)>,
    m: Map<(AccountId, AccountId), Balance>,
    k: (AccountId, AccountId),
)
    requires
        s.finite(),
        s.contains(k),
    ensures
        m[k] <= sum_of(s, m),
{
    lemma_sum_remove(s, m, k);
    lemma_sum_nonneg(s.remove(k), m);
}

/// A mathematical picture of the engine's stores, used by every contract:
/// the candidate pool, the per-(delegator, candidate) delegated amounts,
/// the arrival-ordered delegator list per candidate, the per-delegator
/// count of distinct candidates backed, the custody ledger, and the
/// configured cap on delegations per delegator.
#[verifier::ext_equal]
pub struct StakeModel {
    pub candidates: Map<AccountId, CandidateDetail>,
    pub delegations: Map<(AccountId, AccountId), Balance>,
    pub delegators: Map<AccountId, Seq<AccountId>>,
    pub counts: Map<AccountId, u32>,
    pub accounts: Map<AccountId, AccountBalance>,
    pub max_delegations: u32,
}

impl StakeModel {
    /// The arrival-ordered delegators of candidate `c`; a candidate with no
    /// recorded list has delegated stake from nobody.
    pub open spec fn delegators_of(self, c: AccountId) -> Seq<AccountId> {
        if self.delegators.contains_key(c) {
            self.delegators[c]
        } else {
            Seq::<AccountId>::empty()
        }
    }

    /// How many distinct candidates delegator `d` currently backs.
    pub open spec fn count_of(self, d: AccountId) -> u32 {
        if self.counts.contains_key(d) {
            self.counts[d]
        } else {
            0
        }
    }

    /// The custody entry of account `a`; an unknown account holds nothing.
    pub open spec fn account_of(self, a: AccountId) -> AccountBalance {
        if self.accounts.contains_key(a) {
            self.accounts[a]
        } else {
            AccountBalance { free: 0, held: 0 }
        }
    }

    /// The delegated amount recorded for `(d, c)`, zero when no record exists.
    pub open spec fn amount_of(self, d: AccountId, c: AccountId) -> Balance {
        if self.delegations.contains_key((d, c)) {
            self.delegations[(d, c)]
        } else {
            0
        }
    }

    /// The set of ledger keys belonging to delegator `d`.
    pub open spec fn delegation_keys_of(self, d: AccountId) -> Set<(AccountId, AccountId)> {
        self.delegations.dom().filter(|k: (AccountId, AccountId)| k.0 == d)
    }

    /// The set of ledger keys naming candidate `c`.
    pub open spec fn delegations_to(self, c: AccountId) -> Set<(AccountId, AccountId)> {
        self.delegations.dom().filter(|k: (AccountId, AccountId)| k.1 == c)
    }

    /// The whole stake currently delegated to candidate `c`.
    pub open spec fn staked_total(self, c: AccountId) -> int {
        sum_of(self.delegations_to(c), self.delegations)
    }

    /// The whole stake delegator `d` currently has delegated out.
    pub open spec fn staked_by(self, d: AccountId) -> int {
        sum_of(self.delegation_keys_of(d), self.delegations)
    }

    /// Well-formedness: every recorded delegation is positive and names a
    /// live candidate; a delegator stands in a candidate's list exactly when
    /// a ledger record exists for the pair, and never twice; each count
    /// equals the number of ledger records of that delegator; each
    /// candidate's recorded aggregate equals the sum of the delegations to
    /// it; every delegator's held funds cover the stake it has delegated
    /// out; and no custody entry lets `free + held` leave the balance
    /// domain.
    pub open spec fn wf(self) -> bool {
        &&& self.delegations.dom().finite()
        &&& forall|k: (AccountId, AccountId)| #[trigger]
            self.delegations.contains_key(k) ==> self.delegations[k] > 0
                && self.candidates.contains_key(k.1)
        &&& forall|c: AccountId, d: AccountId|
            self.delegators_of(c).contains(d) <==> #[trigger] self.delegations.contains_key(
                (d, c),
            )
        &&& forall|c: AccountId| (#[trigger] self.delegators_of(c)).no_duplicates()
        &&& forall|d: AccountId| #[trigger] self.count_of(d) == self.delegation_keys_of(d).len()
        &&& forall|c: AccountId| #[trigger]
            self.candidates.contains_key(c) ==> self.candidates[c].total_delegations
                == self.staked_total(c)
        &&& forall|a: AccountId| #[trigger] self.staked_by(a) <= self.account_of(a).held
        &&& forall|a: AccountId| #[trigger]
            self.accounts.contains_key(a) ==> self.accounts[a].free + self.accounts[a].held
                <= Balance::MAX
    }
}

/// Well-formedness carries over to any state with the same delegation
/// ledger and indices, at least the same candidates with unchanged
/// aggregates (a new candidate starting at zero), held funds that have not
/// shrunk, and custody entries that all stay inside the balance domain.
proof fn lemma_wf_same_ledger(m1: StakeModel, m2: StakeModel)
    requires
        m1.wf(),
        m2.delegations == m1.delegations,
        m2.delegators == m1.delegators,
        m2.counts == m1.counts,
        forall|c: AccountId| #[trigger]
            m1.candidates.contains_key(c) ==> m2.candidates.contains_key(c),
        forall|c: AccountId| #[trigger]
            m2.candidates.contains_key(c) ==> if m1.candidates.contains_key(c) {
                m2.candidates[c].total_delegations == m1.candidates[c].total_delegations
            } else {
                m2.candidates[c].total_delegations == 0
            },
        forall|a: AccountId| #[trigger] m2.account_of(a).held >= m1.account_of(a).held,
        forall|a: AccountId| #[trigger]
            m2.accounts.contains_key(a) ==> m2.accounts[a].free + m2.accounts[a].held
                <= Balance::MAX,
    ensures
        m2.wf(),
{
    assert forall|k: (AccountId, AccountId)| #[trigger]
        m2.delegations.contains_key(k) implies m2.delegations[k] > 0
        && m2.candidates.contains_key(k.1) by {
        assert(m1.delegations.contains_key(k));
        assert(m1.candidates.contains_key(k.1));
    }
    assert forall|c: AccountId, d: AccountId|
        m2.delegators_of(c).contains(d) <==> #[trigger] m2.delegations.contains_key(
            (d, c),
        ) by {
        assert(m2.delegators_of(c) == m1.delegators_of(c));
        assert(m1.delegators_of(c).contains(d) <==> m1.delegations.contains_key((d, c)));
    }
    assert forall|c: AccountId| (#[trigger] m2.delegators_of(c)).no_duplicates() by {
        assert(m2.delegators_of(c) == m1.delegators_of(c));
    }
    assert forall|d: AccountId| #[trigger] m2.count_of(d) == m2.delegation_keys_of(d).len() by {
        assert(m2.count_of(d) == m1.count_of(d));
        assert(m2.delegation_keys_of(d) == m1.delegation_keys_of(d));
        assert(m1.count_of(d) == m1.delegation_keys_of(d).len());
    }
    assert forall|c: AccountId| #[trigger]
        m2.candidates.contains_key(c) implies m2.candidates[c].total_delegations
        == m2.staked_total(c) by {
        assert(m2.delegations_to(c) == m1.delegations_to(c));
        assert(m2.staked_total(c) == m1.staked_total(c));
        if m1.candidates.contains_key(c) {
            assert(m1.candidates[c].total_delegations == m1.staked_total(c));
        } else {
            assert forall|k: (AccountId, AccountId)|
                !(#[trigger] m1.delegations_to(c).contains(k)) by {
                if m1.delegations.contains_key(k) && k.1 == c {
                    assert(m1.candidates.contains_key(c));
                }
            }
            assert(m1.delegations_to(c) =~= Set::<(AccountId, AccountId)>::empty());
            assert(sum_of(Set::<(AccountId, AccountId)>::empty(), m1.delegations) == 0);
        }
    }
    assert forall|a: AccountId| #[trigger] m2.staked_by(a) <= m2.account_of(a).held by {
        assert(m2.delegation_keys_of(a) == m1.delegation_keys_of(a));
        assert(m2.staked_by(a) == m1.staked_by(a));
        assert(m1.staked_by(a) <= m1.account_of(a).held);
        assert(m2.account_of(a).held >= m1.account_of(a).held);
    }
}

/// Removing a value from a duplicate-free sequence that holds it shortens
/// the sequence by one, keeps it duplicate-free, and drops exactly that
/// value from its members.
proof fn lemma_remove_value_of_unique(s: Seq<AccountId>, d: AccountId)
    requires
        s.no_duplicates(),
        s.contains(d),
    ensures
        s.remove_value(d).no_duplicates(),
        s.remove_value(d).len() == s.len() - 1,
        forall|d2: AccountId| #[trigger]
            s.remove_value(d).contains(d2) <==> (s.contains(d2) && d2 != d),
{
    s.index_of_first_ensures(d);
    let i0 = s.index_of_first(d).unwrap();
    let sr = s.remove(i0);
    assert(s.remove_value(d) == sr);
    assert forall|d2: AccountId| #[trigger] sr.contains(d2) implies s.contains(d2) && d2 != d by {
        let j = choose|j: int| 0 <= j < sr.len() && sr[j] == d2;
        if j < i0 {
            assert(s[j] == d2);
        } else {
            assert(s[j + 1] == d2);
            if d2 == d {
                assert(s[i0] == d && s[j + 1] == d && i0 != j + 1);
            }
        }
    }
    assert forall|d2: AccountId| s.contains(d2) && d2 != d implies #[trigger] sr.contains(d2) by {
        let j = choose|j: int| 0 <= j < s.len() && s[j] == d2;
        if j < i0 {
            assert(sr[j] == d2);
        } else {
            assert(j != i0);
            assert(sr[j - 1] == d2);
        }
    }
    assert forall|i: int, j: int|
        0 <= i < sr.len() && 0 <= j < sr.len() && i != j implies sr[i] != sr[j] by {
        let ii = if i < i0 { i } else { i + 1 };
        let jj = if j < i0 { j } else { j + 1 };
        assert(sr[i] == s[ii] && sr[j] == s[jj]);
        assert(ii != jj);
    }
    assert(sr.no_duplicates());
}

/// A successful `delegate` leads from a well-formed state to a well-formed
/// state.
pub proof fn lemma_delegate_preserves_wf(m1: StakeModel, d: AccountId, c: AccountId, x: Balance)
    requires
        m1.wf(),
        delegate_outcome(m1, d, c, x) is Ok,
    ensures
        delegate_applied(m1, d, c, x).wf(),
{
    let m2 = delegate_applied(m1, d, c, x);
    let first = !m1.delegations.contains_key((d, c));
    assert(m2.delegations.dom() =~= m1.delegations.dom().insert((d, c)));
    assert forall|k: (AccountId, AccountId)| #[trigger]
        m2.delegations.contains_key(k) implies m2.delegations[k] > 0 && m2.candidates.contains_key(
        k.1,
    ) by {
        if k != (d, c) {
            assert(m1.delegations.contains_key(k));
        }
    }
    assert forall|c2: AccountId, d2: AccountId|
        m2.delegators_of(c2).contains(d2) <==> #[trigger] m2.delegations.contains_key(
            (d2, c2),
        ) by {
        if first && c2 == c {
            let s = m1.delegators_of(c);
            assert(m2.delegators_of(c) == s.push(d));
            assert(s.push(d).contains(d2) <==> s.contains(d2) || d2 == d);
            assert(s.contains(d2) <==> m1.delegations.contains_key((d2, c)));
        } else {
            assert(m2.delegators_of(c2) == m1.delegators_of(c2));
            assert(m1.delegators_of(c2).contains(d2) <==> m1.delegations.contains_key((d2, c2)));
        }
    }
    assert forall|c2: AccountId| (#[trigger] m2.delegators_of(c2)).no_duplicates() by {
        if first && c2 == c {
            let s = m1.delegators_of(c);
            assert(!s.contains(d));
            let sp = s.push(d);
            assert forall|i: int, j: int|
                0 <= i < sp.len() && 0 <= j < sp.len() && i != j implies sp[i] != sp[j] by {
                if i < s.len() && j < s.len() {
                    assert(s.no_duplicates());
                    assert(s[i] == sp[i] && s[j] == sp[j]);
                } else if j == s.len() as int {
                    assert(sp[j] == d);
                    if sp[i] == d {
                        assert(s[i] == d);
                        assert(s.contains(d));
                    }
                } else {
                    assert(sp[i] == d);
                    if sp[j] == d {
                        assert(s[j] == d);
                        assert(s.contains(d));
                    }
                }
            }
            assert(sp.no_duplicates());
        } else {
            assert(m2.delegators_of(c2) == m1.delegators_of(c2));
        }
    }
    assert forall|d2: AccountId| #[trigger] m2.count_of(d2) == m2.delegation_keys_of(d2).len() by {
        m1.delegations.dom().lemma_len_filter(|k: (AccountId, AccountId)| k.0 == d2);
        assert(m1.count_of(d2) == m1.delegation_keys_of(d2).len());
        if first {
            if d2 == d {
                assert(m2.delegation_keys_of(d) =~= m1.delegation_keys_of(d).insert((d, c)));
                assert(!m1.delegation_keys_of(d).contains((d, c)));
                assert(m2.count_of(d) == m1.count_of(d) + 1);
            } else {
                assert(m2.delegation_keys_of(d2) =~= m1.delegation_keys_of(d2));
                assert(m2.count_of(d2) == m1.count_of(d2));
            }
        } else {
            assert(m2.delegation_keys_of(d2) =~= m1.delegation_keys_of(d2));
            assert(m2.count_of(d2) == m1.count_of(d2));
        }
    }
    assert forall|a: AccountId| #[trigger]
        m2.accounts.contains_key(a) implies m2.accounts[a].free + m2.accounts[a].held
        <= Balance::MAX by {
        if a == d {
            if m1.accounts.contains_key(d) {
                assert(m1.accounts[d].free + m1.accounts[d].held <= Balance::MAX);
            }
        } else {
            assert(m1.accounts.contains_key(a));
        }
    }
    let mdel1 = m1.delegations;
    let mdel2 = m2.delegations;
    assert forall|c2: AccountId| #[trigger]
        m2.candidates.contains_key(c2) implies m2.candidates[c2].total_delegations
        == m2.staked_total(c2) by {
        mdel1.dom().lemma_len_filter(|k: (AccountId, AccountId)| k.1 == c2);
        mdel2.dom().lemma_len_filter(|k: (AccountId, AccountId)| k.1 == c2);
        if c2 == c {
            if first {
                assert(m2.delegations_to(c) =~= m1.delegations_to(c).insert((d, c)));
                assert(!m1.delegations_to(c).contains((d, c)));
                lemma_sum_remove(m2.delegations_to(c), mdel2, (d, c));
                assert(m2.delegations_to(c).remove((d, c)) =~= m1.delegations_to(c));
                lemma_sum_congruent(m1.delegations_to(c), mdel2, mdel1);
            } else {
                assert(m2.delegations_to(c) =~= m1.delegations_to(c));
                lemma_sum_remove(m2.delegations_to(c), mdel2, (d, c));
                lemma_sum_remove(m1.delegations_to(c), mdel1, (d, c));
                lemma_sum_congruent(m1.delegations_to(c).remove((d, c)), mdel2, mdel1);
            }
            assert(m1.candidates[c].total_delegations == m1.staked_total(c));
        } else {
            assert(m2.delegations_to(c2) =~= m1.delegations_to(c2));
            lemma_sum_congruent(m1.delegations_to(c2), mdel2, mdel1);
            assert(m1.candidates.contains_key(c2));
            assert(m1.candidates[c2].total_delegations == m1.staked_total(c2));
        }
    }
    assert forall|a: AccountId| #[trigger] m2.staked_by(a) <= m2.account_of(a).held by {
        mdel1.dom().lemma_len_filter(|k: (AccountId, AccountId)| k.0 == a);
        mdel2.dom().lemma_len_filter(|k: (AccountId, AccountId)| k.0 == a);
        assert(m1.staked_by(a) <= m1.account_of(a).held);
        if a == d {
            if first {
                assert(m2.delegation_keys_of(d) =~= m1.delegation_keys_of(d).insert((d, c)));
                assert(!m1.delegation_keys_of(d).contains((d, c)));
                lemma_sum_remove(m2.delegation_keys_of(d), mdel2, (d, c));
                assert(m2.delegation_keys_of(d).remove((d, c)) =~= m1.delegation_keys_of(d));
                lemma_sum_congruent(m1.delegation_keys_of(d), mdel2, mdel1);
            } else {
                assert(m2.delegation_keys_of(d) =~= m1.delegation_keys_of(d));
                lemma_sum_remove(m2.delegation_keys_of(d), mdel2, (d, c));
                lemma_sum_remove(m1.delegation_keys_of(d), mdel1, (d, c));
                lemma_sum_congruent(m1.delegation_keys_of(d).remove((d, c)), mdel2, mdel1);
            }
        } else {
            assert(m2.delegation_keys_of(a) =~= m1.delegation_keys_of(a));
            lemma_sum_congruent(m1.delegation_keys_of(a), mdel2, mdel1);
            assert(m2.account_of(a) == m1.account_of(a));
        }
    }
}

/// A successful `undelegate` leads from a well-formed state to a
/// well-formed state.
pub proof fn lemma_undelegate_preserves_wf(m1: StakeModel, d: AccountId, c: AccountId, x: Balance)
    requires
        m1.wf(),
        undelegate_outcome(m1, d, c, x) is Ok,
    ensures
        undelegate_applied(m1, d, c, x).wf(),
{
    let m2 = undelegate_applied(m1, d, c, x);
    let full = m1.delegations[(d, c)] == x;
    let s = m1.delegators_of(c);
    if full {
        assert(m2.delegations.dom() =~= m1.delegations.dom().remove((d, c)));
        assert(s.contains(d));
        lemma_remove_value_of_unique(s, d);
    } else {
        assert(m2.delegations.dom() =~= m1.delegations.dom());
    }
    assert forall|k: (AccountId, AccountId)| #[trigger]
        m2.delegations.contains_key(k) implies m2.delegations[k] > 0 && m2.candidates.contains_key(
        k.1,
    ) by {
        if k != (d, c) {
            assert(m1.delegations.contains_key(k));
        }
    }
    assert forall|c2: AccountId, d2: AccountId|
        m2.delegators_of(c2).contains(d2) <==> #[trigger] m2.delegations.contains_key(
            (d2, c2),
        ) by {
        if full && c2 == c {
            assert(m2.delegators_of(c) == s.remove_value(d));
            assert(s.remove_value(d).contains(d2) <==> (s.contains(d2) && d2 != d));
            assert(s.contains(d2) <==> m1.delegations.contains_key((d2, c)));
        } else {
            assert(m2.delegators_of(c2) == m1.delegators_of(c2));
            assert(m1.delegators_of(c2).contains(d2) <==> m1.delegations.contains_key((d2, c2)));
        }
    }
    assert forall|c2: AccountId| (#[trigger] m2.delegators_of(c2)).no_duplicates() by {
        if full && c2 == c {
            assert(m2.delegators_of(c) == s.remove_value(d));
        } else {
            assert(m2.delegators_of(c2) == m1.delegators_of(c2));
        }
    }
    assert forall|d2: AccountId| #[trigger] m2.count_of(d2) == m2.delegation_keys_of(d2).len() by {
        m1.delegations.dom().lemma_len_filter(|k: (AccountId, AccountId)| k.0 == d2);
        assert(m1.count_of(d2) == m1.delegation_keys_of(d2).len());
        if full {
            if d2 == d {
                assert(m2.delegation_keys_of(d) =~= m1.delegation_keys_of(d).remove((d, c)));
                assert(m1.delegation_keys_of(d).contains((d, c)));
                assert(m2.count_of(d) == m1.count_of(d) - 1);
            } else {
                assert(m2.delegation_keys_of(d2) =~= m1.delegation_keys_of(d2));
                assert(m2.count_of(d2) == m1.count_of(d2));
            }
        } else {
            assert(m2.delegation_keys_of(d2) =~= m1.delegation_keys_of(d2));
            assert(m2.count_of(d2) == m1.count_of(d2));
        }
    }
    assert forall|a: AccountId| #[trigger]
        m2.accounts.contains_key(a) implies m2.accounts[a].free + m2.accounts[a].held
        <= Balance::MAX by {
        if a == d {
            if m1.accounts.contains_key(d) {
                assert(m1.accounts[d].free + m1.accounts[d].held <= Balance::MAX);
            }
        } else {
            assert(m1.accounts.contains_key(a));
        }
    }
    let mdel1 = m1.delegations;
    let mdel2 = m2.delegations;
    assert forall|c2: AccountId| #[trigger]
        m2.candidates.contains_key(c2) implies m2.candidates[c2].total_delegations
        == m2.staked_total(c2) by {
        mdel1.dom().lemma_len_filter(|k: (AccountId, AccountId)| k.1 == c2);
        mdel2.dom().lemma_len_filter(|k: (AccountId, AccountId)| k.1 == c2);
        if c2 == c {
            lemma_sum_remove(m1.delegations_to(c), mdel1, (d, c));
            if full {
                assert(m2.delegations_to(c) =~= m1.delegations_to(c).remove((d, c)));
                lemma_sum_congruent(m1.delegations_to(c).remove((d, c)), mdel2, mdel1);
            } else {
                assert(m2.delegations_to(c) =~= m1.delegations_to(c));
                lemma_sum_remove(m2.delegations_to(c), mdel2, (d, c));
                lemma_sum_congruent(m1.delegations_to(c).remove((d, c)), mdel2, mdel1);
            }
            assert(m1.candidates[c].total_delegations == m1.staked_total(c));
        } else {
            assert(m2.delegations_to(c2) =~= m1.delegations_to(c2));
            lemma_sum_congruent(m1.delegations_to(c2), mdel2, mdel1);
            assert(m1.candidates.contains_key(c2));
            assert(m1.candidates[c2].total_delegations == m1.staked_total(c2));
        }
    }
    assert forall|a: AccountId| #[trigger] m2.staked_by(a) <= m2.account_of(a).held by {
        mdel1.dom().lemma_len_filter(|k: (AccountId, AccountId)| k.0 == a);
        mdel2.dom().lemma_len_filter(|k: (AccountId, AccountId)| k.0 == a);
        assert(m1.staked_by(a) <= m1.account_of(a).held);
        if a == d {
            lemma_sum_remove(m1.delegation_keys_of(d), mdel1, (d, c));
            if full {
                assert(m2.delegation_keys_of(d) =~= m1.delegation_keys_of(d).remove((d, c)));
                lemma_sum_congruent(m1.delegation_keys_of(d).remove((d, c)), mdel2, mdel1);
            } else {
                assert(m2.delegation_keys_of(d) =~= m1.delegation_keys_of(d));
                lemma_sum_remove(m2.delegation_keys_of(d), mdel2, (d, c));
                lemma_sum_congruent(m1.delegation_keys_of(d).remove((d, c)), mdel2, mdel1);
            }
        } else {
            assert(m2.delegation_keys_of(a) =~= m1.delegation_keys_of(a));
            lemma_sum_congruent(m1.delegation_keys_of(a), mdel2, mdel1);
            assert(m2.account_of(a) == m1.account_of(a));
        }
    }
}

/// A hold of `x` applied to one custody entry: `x` moves from free to held.
pub open spec fn hold_applied(ab: AccountBalance, x: Balance) -> AccountBalance {
    AccountBalance { free: (ab.free - x) as Balance, held: (ab.held + x) as Balance }
}

/// A release of `x` applied to one custody entry: `x` moves back to free.
pub open spec fn release_applied(ab: AccountBalance, x: Balance) -> AccountBalance {
    AccountBalance { free: (ab.free + x) as Balance, held: (ab.held - x) as Balance }
}

/// What `register` answers on a given state.
pub open spec fn register_outcome(m: StakeModel, c: AccountId, bond: Balance) -> Result<
    (),
    DposError,
> {
    if m.candidates.contains_key(c) {
        Err(DposError::AlreadyCandidate)
    } else if m.account_of(c).free < bond {
        Err(DposError::InsufficientBalance)
    } else {
        Ok(())
    }
}

/// The state after a successful `register`: a fresh online record with the
/// bond and no delegations, and the bond held from the candidate's funds.
pub open spec fn register_applied(m: StakeModel, c: AccountId, bond: Balance) -> StakeModel {
    StakeModel {
        candidates: m.candidates.insert(
            c,
            CandidateDetail { bond, total_delegations: 0, status: ValidatorStatus::Online },
        ),
        accounts: m.accounts.insert(c, hold_applied(m.account_of(c), bond)),
        ..m
    }
}

/// What `delegate` answers on a given state. The checks run in the order
/// the operation performs them: a zero amount, a missing candidate, the
/// per-delegator cap (first delegation to `c` only), overflow of the pair's
/// recorded amount, overflow of the candidate's aggregate, and finally the
/// custody hold on the delegator's free funds.
pub open spec fn delegate_outcome(m: StakeModel, d: AccountId, c: AccountId, x: Balance) -> Result<
    Balance,
    DposError,
> {
    if x == 0 {
        Err(DposError::ZeroAmount)
    } else if !m.candidates.contains_key(c) {
        Err(DposError::NotCandidate)
    } else if !m.delegations.contains_key((d, c)) && m.count_of(d) + 1 > m.max_delegations {
        Err(DposError::MaxDelegationsExceeded)
    } else if m.amount_of(d, c) + x > Balance::MAX {
        Err(DposError::ArithmeticOverflow)
    } else if m.candidates[c].total_delegations + x > Balance::MAX {
        Err(DposError::ArithmeticOverflow)
    } else if m.account_of(d).free < x {
        Err(DposError::InsufficientBalance)
    } else {
        Ok((m.candidates[c].total_delegations + x) as Balance)
    }
}

/// The state after a successful `delegate`: the pair's amount grows by `x`
/// (created at `x` on first delegation, when `d` also joins the candidate's
/// list and `d`'s count rises by one), the candidate's aggregate grows by
/// `x`, and `x` is held from the delegator's funds.
pub open spec fn delegate_applied(m: StakeModel, d: AccountId, c: AccountId, x: Balance) -> StakeModel {
    let first = !m.delegations.contains_key((d, c));
    StakeModel {
        candidates: m.candidates.insert(
            c,
            CandidateDetail {
                total_delegations: (m.candidates[c].total_delegations + x) as Balance,
                ..m.candidates[c]
            },
        ),
        delegations: m.delegations.insert((d, c), (m.amount_of(d, c) + x) as Balance),
        delegators: if first {
            m.delegators.insert(c, m.delegators_of(c).push(d))
        } else {
            m.delegators
        },
        counts: if first {
            m.counts.insert(d, (m.count_of(d) + 1) as u32)
        } else {
            m.counts
        },
        accounts: m.accounts.insert(d, hold_applied(m.account_of(d), x)),
        ..m
    }
}

/// What `undelegate` answers on a given state, checks in operation order:
/// a zero amount, a missing record, more than the recorded amount, underflow
/// of the candidate's aggregate, and underflow of the delegator's held
/// funds. On a well-formed state the two underflow branches can never be
/// taken ([`crate::laws::lemma_undelegate_success`]); they keep the checked
/// subtractions' behaviour stated for every state.
pub open spec fn undelegate_outcome(m: StakeModel, d: AccountId, c: AccountId, x: Balance) -> Result<
    Balance,
    DposError,
> {
    if x == 0 {
        Err(DposError::ZeroAmount)
    } else if !m.delegations.contains_key((d, c)) {
        Err(DposError::NoSuchDelegation)
    } else if x > m.delegations[(d, c)] {
        Err(DposError::InsufficientDelegation)
    } else if x > m.candidates[c].total_delegations {
        Err(DposError::ArithmeticUnderflow)
    } else if x > m.account_of(d).held {
        Err(DposError::ArithmeticUnderflow)
    } else {
        Ok((m.candidates[c].total_delegations - x) as Balance)
    }
}

/// The state after a successful `undelegate`: the pair's amount shrinks by
/// `x` (a record reaching zero is removed, `d` leaves the candidate's list
/// with the remaining order kept, and `d`'s count drops by one), the
/// candidate's aggregate shrinks by `x`, and `x` is released back to the
/// delegator's free funds.
pub open spec fn undelegate_applied(m: StakeModel, d: AccountId, c: AccountId, x: Balance) -> StakeModel {
    let remaining = (m.delegations[(d, c)] - x) as Balance;
    let full = remaining == 0;
    StakeModel {
        candidates: m.candidates.insert(
            c,
            CandidateDetail {
                total_delegations: (m.candidates[c].total_delegations - x) as Balance,
                ..m.candidates[c]
            },
        ),
        delegations: if full {
            m.delegations.remove((d, c))
        } else {
            m.delegations.insert((d, c), remaining)
        },
        delegators: if full {
            m.delegators.insert(c, m.delegators_of(c).remove_value(d))
        } else {
            m.delegators
        },
        counts: if full {
            m.counts.insert(d, (m.count_of(d) - 1) as u32)
        } else {
            m.counts
        },
        accounts: m.accounts.insert(d, release_applied(m.account_of(d), x)),
        ..m
    }
}

/// What `toggle_status` answers: the status the candidate ends up with.
pub open spec fn toggle_outcome(m: StakeModel, c: AccountId) -> Result<
    ValidatorStatus,
    DposError,
> {
    if m.candidates.contains_key(c) {
        Ok(
            match m.candidates[c].status {
                ValidatorStatus::Online => ValidatorStatus::Offline,
                ValidatorStatus::Offline => ValidatorStatus::Online,
            },
        )
    } else {
        Err(DposError::NotCandidate)
    }
}

/// The state after a successful `toggle_status`: only the flag flips.
pub open spec fn toggle_applied(m: StakeModel, c: AccountId) -> StakeModel {
    StakeModel {
        candidates: m.candidates.insert(
            c,
            CandidateDetail {
                status: match m.candidates[c].status {
                    ValidatorStatus::Online => ValidatorStatus::Offline,
                    ValidatorStatus::Offline => ValidatorStatus::Online,
                },
                ..m.candidates[c]
            },
        ),
        ..m
    }
}

/// The verified accounting engine: candidate pool, delegation ledger with
/// its two derived indices, and the custody ledger, all keyed stores with
/// deterministic (ascending-key) iteration order.
pub struct DposEngine {
    candidates: BTreeMap<AccountId, CandidateDetail>,
    delegations: BTreeMap<(AccountId, AccountId), Balance>,
    delegators: BTreeMap<AccountId, Vec<AccountId>>,
    counts: BTreeMap<AccountId, u32>,
    accounts: BTreeMap<AccountId, AccountBalance>,
    max_delegations: u32,
}

impl DposEngine {
    /// The mathematical state this engine currently holds.
    pub closed spec fn model(self) -> StakeModel {
        StakeModel {
            candidates: self.candidates@,
            delegations: self.delegations@,
            delegators: self.delegators@.map_values(|v: Vec<AccountId>| v@),
            counts: self.counts@,
            accounts: self.accounts@,
            max_delegations: self.max_delegations,
        }
    }

    /// Shorthand for a well-formed engine state.
    pub open spec fn wf(self) -> bool {
        self.model().wf()
    }

    /// A fresh engine with no candidates, no delegations, no funds, and the
    /// given cap on distinct candidates per delegator.
    pub fn new(max_delegations: u32) -> (r: Self)
        ensures
            r.wf(),
            r.model() == (StakeModel {
                candidates: Map::<AccountId, CandidateDetail>::empty(),
                delegations: Map::<(AccountId, AccountId), Balance>::empty(),
                delegators: Map::<AccountId, Seq<AccountId>>::empty(),
                counts: Map::<AccountId, u32>::empty(),
                accounts: Map::<AccountId, AccountBalance>::empty(),
                max_delegations,
            }),
    {
        let r = DposEngine {
            candidates: BTreeMap::new(),
            delegations: BTreeMap::new(),
            delegators: BTreeMap::new(),
            counts: BTreeMap::new(),
            accounts: BTreeMap::new(),
            max_delegations,
        };
        proof {
            assert(r.model().delegators =~= Map::<AccountId, Seq<AccountId>>::empty());
            assert(r.model() =~= StakeModel {
                candidates: Map::<AccountId, CandidateDetail>::empty(),
                delegations: Map::<(AccountId, AccountId), Balance>::empty(),
                delegators: Map::<AccountId, Seq<AccountId>>::empty(),
                counts: Map::<AccountId, u32>::empty(),
                accounts: Map::<AccountId, AccountBalance>::empty(),
                max_delegations,
            });
            assert(forall|c: AccountId|
                r.model().delegators_of(c) == Seq::<AccountId>::empty());
            assert(forall|d: AccountId| #[trigger] r.model().delegation_keys_of(d) =~= Set::<
                (AccountId, AccountId),
            >::empty());
        }
        r
    }

    /// The configured cap on distinct candidates one delegator may back.
    pub fn max_delegations(&self) -> (r: u32)
        ensures
            r == self.model().max_delegations,
    {
        self.max_delegations
    }

    /// The custody entry of `a`: what is spendable and what is held.
    pub fn get_account(&self, a: AccountId) -> (r: AccountBalance)
        ensures
            r == self.model().account_of(a),
    {
        match self.accounts.get(&a) {
            Some(ab) => *ab,
            None => AccountBalance { free: 0, held: 0 },
        }
    }

    /// Credits `amount` of spendable funds to `a`, the only way funds enter
    /// the custody ledger; fails with `ArithmeticOverflow` when the entry
    /// would leave the balance domain.
    pub fn deposit(&mut self, a: AccountId, amount: Balance) -> (r: DispatchResultWithValue<()>)
        requires
            old(self).wf(),
        ensures
            final(self).wf(),
            ({
                let ab = old(self).model().account_of(a);
                if ab.free + ab.held + amount <= Balance::MAX {
                    &&& r == Ok::<(), DposError>(())
                    &&& final(self).model() == (StakeModel {
                        accounts: old(self).model().accounts.insert(
                            a,
                            AccountBalance { free: (ab.free + amount) as Balance, held: ab.held },
                        ),
                        ..old(self).model()
                    })
                } else {
                    &&& r == Err::<(), DposError>(DposError::ArithmeticOverflow)
                    &&& final(self).model() == old(self).model()
                }
            }),
    {
        let ab = self.get_account(a);
        if ab.held > Balance::MAX - amount || ab.free > Balance::MAX - ab.held - amount {
            return Err(DposError::ArithmeticOverflow);
        }
        let nab = AccountBalance { free: ab.free + amount, held: ab.held };
        self.accounts.insert(a, nab);
        proof {
            let m1 = old(self).model();
            let m2 = final(self).model();
            assert(m2 =~= StakeModel { accounts: m1.accounts.insert(a, nab), ..m1 });
            assert forall|x: AccountId| #[trigger]
                m2.accounts.contains_key(x) implies m2.accounts[x].free + m2.accounts[x].held
                <= Balance::MAX by {
                if x != a {
                    assert(m1.accounts.contains_key(x));
                }
            }
            lemma_wf_same_ledger(m1, m2);
        }
        Ok(())
    }

    /// Pure read of the candidate record of `c`.
    pub fn get_candidate(&self, c: AccountId) -> (r: Option<CandidateDetail>)
        ensures
            r == if self.model().candidates.contains_key(c) {
                Some(self.model().candidates[c])
            } else {
                None::<CandidateDetail>
            },
    {
        match self.candidates.get(&c) {
            Some(detail) => Some(*detail),
            None => None,
        }
    }

    /// Pure read of the delegation record of `(d, c)`.
    pub fn get_delegation(&self, d: AccountId, c: AccountId) -> (r: Option<DelegationInfo>)
        ensures
            r == if self.model().delegations.contains_key((d, c)) {
                Some(DelegationInfo { amount: self.model().delegations[(d, c)] })
            } else {
                None::<DelegationInfo>
            },
    {
        match self.delegations.get(&(d, c)) {
            Some(amount) => Some(DelegationInfo { amount: *amount }),
            None => None,
        }
    }

    /// Pure read of the arrival-ordered delegators of candidate `c`.
    pub fn get_delegators(&self, c: AccountId) -> (r: Vec<AccountId>)
        ensures
            r@ == self.model().delegators_of(c),
    {
        let mut r: Vec<AccountId> = Vec::new();
        let list = match self.delegators.get(&c) {
            Some(v) => v,
            None => { return r },
        };
        let n: usize = list.len();
        let mut i: usize = 0;
        while i < n
            invariant
                i <= n,
                n == list@.len(),
                r@ == list@.take(i as int),
            decreases n - i,
        {
            r.push(list[i]);
            proof {
                assert(r@ =~= list@.take(i + 1 as int));
            }
            i = i + 1;
        }
        proof {
            assert(list@.take(n as int) =~= list@);
        }
        r
    }

    /// How many distinct candidates delegator `d` currently backs.
    pub fn get_delegate_count(&self, d: AccountId) -> (r: u32)
        ensures
            r == self.model().count_of(d),
    {
        match self.counts.get(&d) {
            Some(n) => *n,
            None => 0,
        }
    }

    /// Registers `c` as a validator candidate with the given bond: fails
    /// with `AlreadyCandidate` if a record exists and `InsufficientBalance`
    /// if the custody ledger cannot hold `bond`; on success the new record
    /// is online with zero delegations, the bond is held, and `c` has no
    /// delegators.
    pub fn register(&mut self, c: AccountId, bond: Balance) -> (r: DispatchResultWithValue<()>)
        requires
            old(self).wf(),
        ensures
            final(self).wf(),
            r == register_outcome(old(self).model(), c, bond),
            r is Ok ==> final(self).model() == register_applied(old(self).model(), c, bond),
            r is Err ==> final(self).model() == old(self).model(),
            r is Ok ==> final(self).model().delegators_of(c) == Seq::<AccountId>::empty(),
    {
        if self.candidates.contains_key(&c) {
            return Err(DposError::AlreadyCandidate);
        }
        let ab = self.get_account(c);
        if ab.free < bond {
            return Err(DposError::InsufficientBalance);
        }
        proof {
            let m1 = old(self).model();
            if m1.accounts.contains_key(c) {
                assert(m1.accounts[c].free + m1.accounts[c].held <= Balance::MAX);
            }
            assert(ab.free + ab.held <= Balance::MAX);
        }
        let nab = AccountBalance { free: ab.free - bond, held: ab.held + bond };
        self.accounts.insert(c, nab);
        self.candidates.insert(c, CandidateDetail::new(bond));
        proof {
            let m1 = old(self).model();
            let m2 = final(self).model();
            assert(m2 =~= register_applied(m1, c, bond));
            let s = m1.delegators_of(c);
            if s.len() > 0 {
                assert(s.contains(s[0]));
                assert(m1.delegations.contains_key((s[0], c)));
                assert(m1.candidates.contains_key(c));
            }
            assert(m2.delegators_of(c) =~= Seq::<AccountId>::empty());
            assert forall|x: AccountId| #[trigger]
                m2.accounts.contains_key(x) implies m2.accounts[x].free + m2.accounts[x].held
                <= Balance::MAX by {
                if x != c {
                    assert(m1.accounts.contains_key(x));
                }
            }
            lemma_wf_same_ledger(m1, m2);
        }
        Ok(())
    }

    /// Delegates `amount` from `d` to candidate `c` and reports the
    /// candidate's new aggregate delegated stake. The outcome — which error
    /// comes on which state, and the exact state a success leads to — is
    /// pinned by [`delegate_outcome`] and [`delegate_applied`]; every
    /// failure leaves the state untouched.
    pub fn delegate(&mut self, d: AccountId, c: AccountId, amount: Balance) -> (r:
        DispatchResultWithValue<Balance>)
        requires
            old(self).wf(),
        ensures
            final(self).wf(),
            r == delegate_outcome(old(self).model(), d, c, amount),
            r is Ok ==> final(self).model() == delegate_applied(old(self).model(), d, c, amount),
            r is Err ==> final(self).model() == old(self).model(),
    {
        if amount == 0 {
            return Err(DposError::ZeroAmount);
        }
        let detail = match self.candidates.get(&c) {
            Some(detail) => *detail,
            None => { return Err(DposError::NotCandidate) },
        };
        let existing: Option<Balance> = match self.delegations.get(&(d, c)) {
            Some(a) => Some(*a),
            None => None,
        };
        let first = existing.is_none();
        let new_pair_amount: Balance = match existing {
            None => {
                let cnt = self.get_delegate_count(d);
                if cnt >= self.max_delegations {
                    return Err(DposError::MaxDelegationsExceeded);
                }
                amount
            },
            Some(prev) => {
                match crate::balance::checked_add(prev, amount) {
                    Some(t) => t,
                    None => { return Err(DposError::ArithmeticOverflow) },
                }
            },
        };
        let new_total = match crate::balance::checked_add(detail.total_delegations, amount) {
            Some(t) => t,
            None => { return Err(DposError::ArithmeticOverflow) },
        };
        let ab = self.get_account(d);
        if ab.free < amount {
            return Err(DposError::InsufficientBalance);
        }
        proof {
            let m1 = old(self).model();
            if m1.accounts.contains_key(d) {
                assert(m1.accounts[d].free + m1.accounts[d].held <= Balance::MAX);
            }
            assert(ab.free + ab.held <= Balance::MAX);
        }
        let nab = AccountBalance { free: ab.free - amount, held: ab.held + amount };
        self.delegations.insert((d, c), new_pair_amount);
        if first {
            let mut list = self.get_delegators(c);
            list.push(d);
            self.delegators.insert(c, list);
            let cnt = self.get_delegate_count(d);
            self.counts.insert(d, cnt + 1);
        }
        self.candidates.insert(c, CandidateDetail { total_delegations: new_total, ..detail });
        self.accounts.insert(d, nab);
        proof {
            let m1 = old(self).model();
            let m2 = self.model();
            if first {
                assert(m2.delegators =~= m1.delegators.insert(c, m1.delegators_of(c).push(d)));
            } else {
                assert(m2.delegators =~= m1.delegators);
            }
            assert(m2 =~= delegate_applied(m1, d, c, amount));
            lemma_delegate_preserves_wf(m1, d, c, amount);
        }
        Ok(new_total)
    }

    /// Withdraws `amount` of the stake `d` has delegated to `c` and reports
    /// the candidate's new aggregate delegated stake. The outcome is pinned
    /// by [`undelegate_outcome`] and [`undelegate_applied`]; every failure
    /// leaves the state untouched. A record drawn down to zero is removed
    /// with its two indices updated, and the funds return to `d`'s free
    /// balance.
    pub fn undelegate(&mut self, d: AccountId, c: AccountId, amount: Balance) -> (r:
        DispatchResultWithValue<Balance>)
        requires
            old(self).wf(),
        ensures
            final(self).wf(),
            r == undelegate_outcome(old(self).model(), d, c, amount),
            r is Ok ==> final(self).model() == undelegate_applied(old(self).model(), d, c, amount),
            r is Err ==> final(self).model() == old(self).model(),
    {
        if amount == 0 {
            return Err(DposError::ZeroAmount);
        }
        let prev = match self.delegations.get(&(d, c)) {
            Some(a) => *a,
            None => { return Err(DposError::NoSuchDelegation) },
        };
        if amount > prev {
            return Err(DposError::InsufficientDelegation);
        }
        proof {
            assert(old(self).model().delegations.contains_key((d, c)));
            assert(old(self).model().candidates.contains_key(c));
        }
        let detail = match self.candidates.get(&c) {
            Some(detail) => *detail,
            // never reached: a recorded delegation always names a live candidate
            None => { return Err(DposError::NotCandidate) },
        };
        let new_total = match crate::balance::checked_sub(detail.total_delegations, amount) {
            Some(t) => t,
            None => { return Err(DposError::ArithmeticUnderflow) },
        };
        let ab = self.get_account(d);
        if ab.held < amount {
            return Err(DposError::ArithmeticUnderflow);
        }
        proof {
            let m1 = old(self).model();
            assert(m1.accounts.contains_key(d));
            assert(m1.accounts[d].free + m1.accounts[d].held <= Balance::MAX);
        }
        let nab = AccountBalance { free: ab.free + amount, held: ab.held - amount };
        let remaining = prev - amount;
        if remaining == 0 {
            self.delegations.remove(&(d, c));
            let mut list = self.get_delegators(c);
            proof {
                assert(old(self).model().delegators_of(c).contains(d));
                assert(list@ == old(self).model().delegators_of(c));
            }
            let n: usize = list.len();
            let mut i: usize = 0;
            while i < n && list[i] != d
                invariant
                    i <= n,
                    n == list@.len(),
                    forall|j: int| 0 <= j < i ==> list@[j] != d,
                    list@.contains(d),
                decreases n - i,
            {
                i = i + 1;
            }
            proof {
                if i == n {
                    let j = choose|j: int| 0 <= j < list@.len() && list@[j] == d;
                    assert(list@[j] != d);
                }
                let s = old(self).model().delegators_of(c);
                s.index_of_first_ensures(d);
                let i0 = s.index_of_first(d).unwrap();
                assert(s[i as int] == d);
                if i0 < i as int {
                    assert(s[i0] == d);
                }
                assert(i as int == i0);
            }
            list.remove(i);
            self.delegators.insert(c, list);
            let cnt = self.get_delegate_count(d);
            proof {
                let m1 = old(self).model();
                m1.delegations.dom().lemma_len_filter(
                    |k: (AccountId, AccountId)| k.0 == d,
                );
                assert(m1.delegation_keys_of(d).contains((d, c)));
                assert(m1.delegation_keys_of(d).finite());
                assert(m1.delegation_keys_of(d).len() != 0);
                assert(m1.count_of(d) == m1.delegation_keys_of(d).len());
                assert(cnt == m1.count_of(d));
                assert(cnt >= 1);
            }
            self.counts.insert(d, cnt - 1);
        } else {
            self.delegations.insert((d, c), remaining);
        }
        self.candidates.insert(c, CandidateDetail { total_delegations: new_total, ..detail });
        self.accounts.insert(d, nab);
        proof {
            let m1 = old(self).model();
            let m2 = self.model();
            if remaining == 0 {
                assert(m2.delegators =~= m1.delegators.insert(
                    c,
                    m1.delegators_of(c).remove_value(d),
                ));
            } else {
                assert(m2.delegators =~= m1.delegators);
            }
            assert(m2 =~= undelegate_applied(m1, d, c, amount));
            lemma_undelegate_preserves_wf(m1, d, c, amount);
        }
        Ok(new_total)
    }

    /// Flips candidate `c` between Online and Offline and reports the new
    /// status; balances and the delegation ledger are untouched.
    pub fn toggle_status(&mut self, c: AccountId) -> (r: DispatchResultWithValue<ValidatorStatus>)
        requires
            old(self).wf(),
        ensures
            final(self).wf(),
            r == toggle_outcome(old(self).model(), c),
            r is Ok ==> final(self).model() == toggle_applied(old(self).model(), c),
            r is Err ==> final(self).model() == old(self).model(),
    {
        let detail = match self.candidates.get(&c) {
            Some(detail) => *detail,
            None => { return Err(DposError::NotCandidate) },
        };
        let mut updated = detail;
        updated.toggle_status();
        self.candidates.insert(c, updated);
        proof {
            let m1 = old(self).model();
            let m2 = final(self).model();
            assert(m2 =~= toggle_applied(m1, c));
            assert forall|x: AccountId| #[trigger]
                m2.accounts.contains_key(x) implies m2.accounts[x].free + m2.accounts[x].held
                <= Balance::MAX by {
                assert(m1.accounts.contains_key(x));
            }
            lemma_wf_same_ledger(m1, m2);
        }
        Ok(updated.status)
    }

    /// Replaces the bond of candidate `c`; delegations and status are
    /// untouched, and no custody movement takes place.
    pub fn rebond(&mut self, c: AccountId, new_bond: Balance) -> (r: DispatchResultWithValue<()>)
        requires
            old(self).wf(),
        ensures
            final(self).wf(),
            ({
                if old(self).model().candidates.contains_key(c) {
                    &&& r == Ok::<(), DposError>(())
                    &&& final(self).model() == (StakeModel {
                        candidates: old(self).model().candidates.insert(
                            c,
                            CandidateDetail {
                                bond: new_bond,
                                ..old(self).model().candidates[c]
                            },
                        ),
                        ..old(self).model()
                    })
                } else {
                    &&& r == Err::<(), DposError>(DposError::NotCandidate)
                    &&& final(self).model() == old(self).model()
                }
            }),
    {
        let detail = match self.candidates.get(&c) {
            Some(detail) => *detail,
            None => { return Err(DposError::NotCandidate) },
        };
        let mut updated = detail;
        updated.update_bond(new_bond);
        self.candidates.insert(c, updated);
        proof {
            let m1 = old(self).model();
            let m2 = final(self).model();
            assert(m2 =~= StakeModel {
                candidates: m1.candidates.insert(
                    c,
                    CandidateDetail { bond: new_bond, ..m1.candidates[c] },
                ),
                ..m1
            });
            assert forall|x: AccountId| #[trigger]
                m2.accounts.contains_key(x) implies m2.accounts[x].free + m2.accounts[x].held
                <= Balance::MAX by {
                assert(m1.accounts.contains_key(x));
            }
            lemma_wf_same_ledger(m1, m2);
        }
        Ok(())
    }

    /// Builds the epoch snapshot of the current state: each candidate's
    /// self-bond keyed by candidate id, and every recorded delegation keyed
    /// by (delegator, candidate). A pure read of the two stores — the
    /// result is a function of the current state alone, so two builds from
    /// the same state yield the same mappings.
    pub fn build_snapshot(&self) -> (s: EpochSnapshot)
        ensures
            s.validators@ == self.model().candidates.map_values(|cd: CandidateDetail| cd.bond),
            s.delegations@ == self.model().delegations,
    {
        let mut snap = EpochSnapshot::default();
        let ghost v = vstd::std_specs::iter::IteratorSpec::remaining(&self.candidates.iter());
        let ghost mut done: int = 0;
        for kv in it: self.candidates.iter()
            invariant
                it.seq() == v,
                done == it.index(),
                forall|j: int|
                    0 <= j < done ==> snap.validators@.contains_key(*(#[trigger] v[j]).0)
                        && snap.validators@[*v[j].0] == v[j].1.bond,
                forall|a: AccountId| #[trigger]
                    snap.validators@.contains_key(a) ==> exists|j: int|
                        0 <= j < done && *(#[trigger] v[j]).0 == a,
                snap.delegations@ == Map::<(AccountId, AccountId), Balance>::empty(),
        {
            snap.add_validator(*kv.0, kv.1.bond);
            proof {
                let m = self.candidates@;
                assert(kv == v[done]);
                assert forall|j: int|
                    0 <= j < done + 1 implies snap.validators@.contains_key(
                    *(#[trigger] v[j]).0,
                ) && snap.validators@[*v[j].0] == v[j].1.bond by {
                    assert(m.contains_key(*v[done].0));
                    assert(m[*v[done].0] == *v[done].1);
                    if j < done {
                        assert(m.contains_key(*v[j].0));
                        assert(m[*v[j].0] == *v[j].1);
                        if *v[j].0 == *v[done].0 {
                            assert(*v[j].1 == *v[done].1);
                        }
                    }
                }
                done = done + 1;
            }
        }
        proof {
            assert(done == v.len());
            let pool = self.candidates@;
            let target = pool.map_values(|cd: CandidateDetail| cd.bond);
            assert forall|a: AccountId| #[trigger]
                pool.contains_key(a) implies snap.validators@.contains_key(a)
                && snap.validators@[a] == pool[a].bond by {
                assert(v.contains((&a, &pool[a])));
                let j = choose|j: int| 0 <= j < v.len() && v[j] == (&a, &pool[a]);
                assert(snap.validators@.contains_key(*v[j].0));
                assert(snap.validators@[*v[j].0] == v[j].1.bond);
            }
            assert forall|a: AccountId| #[trigger]
                snap.validators@.contains_key(a) implies pool.contains_key(a) by {
                let j = choose|j: int| 0 <= j < v.len() && *v[j].0 == a;
                assert(pool.contains_key(*v[j].0));
            }
            assert(snap.validators@ =~= target);
        }
        let ghost w = vstd::std_specs::iter::IteratorSpec::remaining(&self.delegations.iter());
        let ghost mut done2: int = 0;
        for kv in it2: self.delegations.iter()
            invariant
                it2.seq() == w,
                done2 == it2.index(),
                snap.validators@ == self.candidates@.map_values(|cd: CandidateDetail| cd.bond),
                forall|j: int|
                    0 <= j < done2 ==> snap.delegations@.contains_key(*(#[trigger] w[j]).0)
                        && snap.delegations@[*w[j].0] == *w[j].1,
                forall|k: (AccountId, AccountId)| #[trigger]
                    snap.delegations@.contains_key(k) ==> exists|j: int|
                        0 <= j < done2 && *(#[trigger] w[j]).0 == k,
        {
            let key = *kv.0;
            snap.add_delegator(key.0, key.1, *kv.1);
            proof {
                assert((key.0, key.1) == key);
                let m = self.delegations@;
                assert(kv == w[done2]);
                assert forall|j: int|
                    0 <= j < done2 + 1 implies snap.delegations@.contains_key(
                    *(#[trigger] w[j]).0,
                ) && snap.delegations@[*w[j].0] == *w[j].1 by {
                    assert(m.contains_key(*w[done2].0));
                    assert(m[*w[done2].0] == *w[done2].1);
                    if j < done2 {
                        assert(m.contains_key(*w[j].0));
                        assert(m[*w[j].0] == *w[j].1);
                        if *w[j].0 == *w[done2].0 {
                            assert(*w[j].1 == *w[done2].1);
                        }
                    }
                }
                done2 = done2 + 1;
            }
        }
        proof {
            assert(done2 == w.len());
            let v = w;
            let ledger = self.delegations@;
            assert forall|k: (AccountId, AccountId)| #[trigger]
                ledger.contains_key(k) implies snap.delegations@.contains_key(k)
                && snap.delegations@[k] == ledger[k] by {
                assert(v.contains((&k, &ledger[k])));
                let j = choose|j: int| 0 <= j < v.len() && v[j] == (&k, &ledger[k]);
                assert(snap.delegations@.contains_key(*v[j].0));
                assert(snap.delegations@[*v[j].0] == *v[j].1);
            }
            assert forall|k: (AccountId, AccountId)| #[trigger]
                snap.delegations@.contains_key(k) implies ledger.contains_key(k) by {
                let j = choose|j: int| 0 <= j < v.len() && *v[j].0 == k;
                assert(ledger.contains_key(*v[j].0));
            }
            assert(snap.delegations@ =~= ledger);
        }
        snap
    }
}

} // verus!
