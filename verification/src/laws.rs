use vstd::prelude::*;

use crate::balance::Balance;
use crate::candidate::{CandidateDetail, ValidatorStatus};
use crate::engine::{
    delegate_applied, delegate_outcome, lemma_delegate_preserves_wf, lemma_sum_bounds_member,
    register_applied, register_outcome, undelegate_applied, undelegate_outcome, DposEngine,
    StakeModel,
};
use crate::errors::DposError;
use crate::snapshot::{AccountId, EpochSnapshot};

verus! {

/// Registration: on a well-formed state where `c` is not yet a candidate
/// and has at least `bond` free, registering succeeds; the new record
/// carries the bond with zero delegations and Online status, exactly
/// `bond` moves from the candidate's free to its held balance, and the
/// candidate has no delegators.
pub proof fn lemma_registration(m: StakeModel, c: AccountId, bond: Balance)
    requires
        m.wf(),
        bond > 0,
        !m.candidates.contains_key(c),
        m.account_of(c).free >= bond,
    ensures
        register_outcome(m, c, bond) is Ok,
        register_applied(m, c, bond).candidates[c] == (CandidateDetail {
            bond,
            total_delegations: 0,
            status: ValidatorStatus::Online,
        }),
        register_applied(m, c, bond).account_of(c).held == m.account_of(c).held + bond,
        register_applied(m, c, bond).account_of(c).free == m.account_of(c).free - bond,
        register_applied(m, c, bond).delegators_of(c) == Seq::<AccountId>::empty(),
{
    let s = m.delegators_of(c);
    if s.len() > 0 {
        assert(s.contains(s[0]));
        assert(m.delegations.contains_key((s[0], c)));
        assert(m.candidates.contains_key(c));
    }
    assert(register_applied(m, c, bond).delegators_of(c) =~= Seq::<AccountId>::empty());
}

/// Accumulation: two successive delegations from `d` to `c`, the first on
/// a state with no record for the pair, leave a single record holding
/// `x1 + x2`, raise `d`'s delegation count exactly once across the two
/// calls, and put `d` in `c`'s delegator list exactly once.
pub proof fn lemma_accumulation(
    m: StakeModel,
    d: AccountId,
    c: AccountId,
    x1: Balance,
    x2: Balance,
)
    requires
        m.wf(),
        x1 > 0,
        x2 > 0,
        !m.delegations.contains_key((d, c)),
        delegate_outcome(m, d, c, x1) is Ok,
        delegate_outcome(delegate_applied(m, d, c, x1), d, c, x2) is Ok,
    ensures
        ({
            let once = delegate_applied(m, d, c, x1);
            let twice = delegate_applied(once, d, c, x2);
            &&& twice.delegations[(d, c)] == x1 + x2
            &&& twice.count_of(d) == m.count_of(d) + 1
            &&& twice.delegators_of(c) == m.delegators_of(c).push(d)
            &&& twice.delegators_of(c).contains(d)
            &&& twice.delegators_of(c).no_duplicates()
        }),
{
    lemma_delegate_preserves_wf(m, d, c, x1);
    let once = delegate_applied(m, d, c, x1);
    let twice = delegate_applied(once, d, c, x2);
    lemma_delegate_preserves_wf(once, d, c, x2);
    assert(once.delegations[(d, c)] == x1);
    assert(once.delegations.contains_key((d, c)));
    assert(twice.delegations[(d, c)] == x1 + x2);
    assert(twice.counts == once.counts);
    assert(twice.delegators == once.delegators);
    assert(twice.delegators_of(c) == once.delegators_of(c));
    assert(twice.delegators_of(c).contains(d));
}

/// Round-trip: delegating `x` from `d` to `c` on a state with no record
/// for the pair and then undelegating the same `x` removes the record and
/// restores the candidate's aggregate delegations, `d`'s delegation count,
/// `c`'s delegator list, and `d`'s custody entry to their earlier values.
pub proof fn lemma_round_trip(m: StakeModel, d: AccountId, c: AccountId, x: Balance)
    requires
        m.wf(),
        x > 0,
        !m.delegations.contains_key((d, c)),
        delegate_outcome(m, d, c, x) is Ok,
    ensures
        ({
            let once = delegate_applied(m, d, c, x);
            let back = undelegate_applied(once, d, c, x);
            &&& undelegate_outcome(once, d, c, x) is Ok
            &&& back.candidates[c].total_delegations == m.candidates[c].total_delegations
            &&& back.count_of(d) == m.count_of(d)
            &&& back.delegators_of(c) == m.delegators_of(c)
            &&& !back.delegations.contains_key((d, c))
            &&& back.account_of(d) == m.account_of(d)
        }),
{
    lemma_delegate_preserves_wf(m, d, c, x);
    let once = delegate_applied(m, d, c, x);
    let back = undelegate_applied(once, d, c, x);
    assert(once.delegations[(d, c)] == x);
    lemma_undelegate_success(once, d, c, x);
    // the delegator list comes back: `d` was appended at the end and is
    // removed from there, since it stood nowhere earlier in the list
    let s = m.delegators_of(c);
    assert(!s.contains(d));
    let sp = s.push(d);
    sp.index_of_first_ensures(d);
    assert(sp[s.len() as int] == d);
    assert(sp.index_of_first(d) is Some);
    let i0 = sp.index_of_first(d).unwrap();
    if i0 < s.len() {
        assert(sp[i0] == s[i0]);
        assert(s.contains(s[i0]));
    }
    assert(i0 == s.len());
    assert(sp.remove(i0) =~= s);
    assert(back.delegators_of(c) == s);
    assert(back.count_of(d) == m.count_of(d));
    assert(back.account_of(d) == m.account_of(d));
}

/// Success owed on withdrawal: from a well-formed state, undelegating a
/// positive amount no greater than the recorded delegation always
/// succeeds. The checked subtractions inside the operation can never
/// underflow there, because well-formedness keeps each candidate's
/// aggregate equal to the sum of the delegations to it and each
/// delegator's held funds at least its outgoing stake.
pub proof fn lemma_undelegate_success(m: StakeModel, d: AccountId, c: AccountId, x: Balance)
    requires
        m.wf(),
        x > 0,
        m.delegations.contains_key((d, c)),
        x <= m.delegations[(d, c)],
    ensures
        undelegate_outcome(m, d, c, x) == Ok::<Balance, DposError>(
            (m.candidates[c].total_delegations - x) as Balance,
        ),
{
    m.delegations.dom().lemma_len_filter(|k: (AccountId, AccountId)| k.1 == c);
    assert(m.delegations_to(c).contains((d, c)));
    lemma_sum_bounds_member(m.delegations_to(c), m.delegations, (d, c));
    assert(m.candidates.contains_key(c));
    assert(m.candidates[c].total_delegations == m.staked_total(c));
    m.delegations.dom().lemma_len_filter(|k: (AccountId, AccountId)| k.0 == d);
    assert(m.delegation_keys_of(d).contains((d, c)));
    lemma_sum_bounds_member(m.delegation_keys_of(d), m.delegations, (d, c));
    assert(m.staked_by(d) <= m.account_of(d).held);
}

/// Snapshot determinism: the snapshot mappings are a function of the
/// engine state alone, so two snapshots carrying the mappings
/// [`DposEngine::build_snapshot`] guarantees, taken of engines in the same
/// state, are identical.
pub proof fn lemma_snapshot_determinism(
    e1: DposEngine,
    e2: DposEngine,
    s1: EpochSnapshot,
    s2: EpochSnapshot,
)
    requires
        e1.model() == e2.model(),
        s1.validators@ == e1.model().candidates.map_values(|cd: CandidateDetail| cd.bond),
        s1.delegations@ == e1.model().delegations,
        s2.validators@ == e2.model().candidates.map_values(|cd: CandidateDetail| cd.bond),
        s2.delegations@ == e2.model().delegations,
    ensures
        s1.validators@ == s2.validators@,
        s1.delegations@ == s2.delegations@,
{
}

/// Overflow safety: when a delegation would push the candidate's aggregate
/// past the top of the balance domain — and no earlier check already turns
/// it away — `delegate` answers `ArithmeticOverflow`. The engine contract
/// adds that every erring call leaves all four stores untouched.
pub proof fn lemma_overflow_safety(m: StakeModel, d: AccountId, c: AccountId, x: Balance)
    requires
        m.wf(),
        x > 0,
        m.candidates.contains_key(c),
        !m.delegations.contains_key((d, c)) ==> m.count_of(d) + 1 <= m.max_delegations,
        m.amount_of(d, c) + x <= Balance::MAX,
        m.candidates[c].total_delegations + x > Balance::MAX,
    ensures
        delegate_outcome(m, d, c, x) == Err::<Balance, DposError>(DposError::ArithmeticOverflow),
{
}

} // verus!
