use dpos::balance::{checked_add, checked_sub, saturating_add, Balance};
use dpos::candidate::{CandidateDetail, ValidatorStatus};
use dpos::engine::{AccountBalance, DelegationInfo, DposEngine};
use dpos::errors::DposError;

const MAX: Balance = u128::MAX;

#[test]
fn checked_add_reports_exact_sums_and_overflow() {
    assert_eq!(checked_add(2, 3), Some(5));
    assert_eq!(checked_add(MAX - 1, 1), Some(MAX));
    assert_eq!(checked_add(MAX, 1), None);
    assert_eq!(checked_add(MAX, 0), Some(MAX));
}

#[test]
fn checked_sub_reports_exact_differences_and_underflow() {
    assert_eq!(checked_sub(5, 3), Some(2));
    assert_eq!(checked_sub(3, 3), Some(0));
    assert_eq!(checked_sub(3, 4), None);
}

#[test]
fn saturating_add_clamps_at_domain_top() {
    assert_eq!(saturating_add(2, 3), 5);
    assert_eq!(saturating_add(MAX, 1), MAX);
    assert_eq!(saturating_add(MAX, MAX), MAX);
}

#[test]
fn new_candidate_detail_is_online_with_zero_delegations() {
    let detail = CandidateDetail::new(100);
    assert_eq!(detail.bond, 100);
    assert_eq!(detail.total_delegations, 0);
    assert_eq!(detail.status, ValidatorStatus::Online);
}

#[test]
fn add_delegated_amount_accumulates_and_rejects_overflow() {
    let mut detail = CandidateDetail::new(10);
    assert_eq!(detail.add_delegated_amount(50), Ok(50));
    assert_eq!(detail.add_delegated_amount(30), Ok(80));
    assert_eq!(detail.total_delegations, 80);
    assert_eq!(detail.add_delegated_amount(MAX), Err(DposError::ArithmeticOverflow));
    assert_eq!(detail.total_delegations, 80);
}

#[test]
fn sub_delegated_amount_subtracts_and_rejects_underflow() {
    let mut detail = CandidateDetail::new(10);
    assert_eq!(detail.add_delegated_amount(80), Ok(80));
    assert_eq!(detail.sub_delegated_amount(30), Ok(50));
    assert_eq!(detail.sub_delegated_amount(51), Err(DposError::ArithmeticUnderflow));
    assert_eq!(detail.total_delegations, 50);
}

#[test]
fn total_adds_bond_and_delegations_saturating() {
    let mut detail = CandidateDetail::new(100);
    assert_eq!(detail.add_delegated_amount(50), Ok(50));
    assert_eq!(detail.total(), 150);
    let mut big = CandidateDetail::new(MAX);
    assert_eq!(big.add_delegated_amount(5), Ok(5));
    assert_eq!(big.total(), MAX);
}

#[test]
fn toggle_status_flips_back_and_forth() {
    let mut detail = CandidateDetail::new(1);
    detail.toggle_status();
    assert_eq!(detail.status, ValidatorStatus::Offline);
    detail.toggle_status();
    assert_eq!(detail.status, ValidatorStatus::Online);
    assert_eq!(detail.bond, 1);
}

#[test]
fn update_bond_touches_only_the_bond() {
    let mut detail = CandidateDetail::new(100);
    assert_eq!(detail.add_delegated_amount(7), Ok(7));
    detail.update_bond(250);
    assert_eq!(detail.bond, 250);
    assert_eq!(detail.total_delegations, 7);
    assert_eq!(detail.status, ValidatorStatus::Online);
}

#[test]
fn registration_holds_bond_and_creates_online_record() {
    let mut engine = DposEngine::new(16);
    assert_eq!(engine.deposit(1, 1000), Ok(()));
    assert_eq!(engine.register(1, 100), Ok(()));
    assert_eq!(engine.get_account(1), AccountBalance { free: 900, held: 100 });
    assert_eq!(
        engine.get_candidate(1),
        Some(CandidateDetail { bond: 100, total_delegations: 0, status: ValidatorStatus::Online })
    );
    assert_eq!(engine.get_delegators(1), Vec::<u64>::new());
}

#[test]
fn register_rejects_duplicates_and_poor_candidates() {
    let mut engine = DposEngine::new(16);
    assert_eq!(engine.deposit(1, 50), Ok(()));
    assert_eq!(engine.register(1, 100), Err(DposError::InsufficientBalance));
    assert_eq!(engine.get_candidate(1), None);
    assert_eq!(engine.deposit(1, 50), Ok(()));
    assert_eq!(engine.register(1, 100), Ok(()));
    assert_eq!(engine.register(1, 30), Err(DposError::AlreadyCandidate));
    assert_eq!(engine.get_account(1), AccountBalance { free: 0, held: 100 });
}

#[test]
fn accumulation_merges_repeat_delegations() {
    let mut engine = DposEngine::new(16);
    assert_eq!(engine.deposit(1, 1000), Ok(()));
    assert_eq!(engine.register(1, 100), Ok(()));
    assert_eq!(engine.deposit(2, 500), Ok(()));
    assert_eq!(engine.delegate(2, 1, 50), Ok(50));
    assert_eq!(engine.delegate(2, 1, 30), Ok(80));
    assert_eq!(engine.get_delegation(2, 1), Some(DelegationInfo { amount: 80 }));
    assert_eq!(engine.get_delegate_count(2), 1);
    assert_eq!(engine.get_delegators(1), vec![2]);
}

#[test]
fn round_trip_restores_all_stores() {
    let mut engine = DposEngine::new(16);
    assert_eq!(engine.deposit(1, 1000), Ok(()));
    assert_eq!(engine.register(1, 100), Ok(()));
    assert_eq!(engine.deposit(2, 500), Ok(()));
    assert_eq!(engine.delegate(2, 1, 75), Ok(75));
    assert_eq!(engine.undelegate(2, 1, 75), Ok(0));
    assert_eq!(engine.get_delegation(2, 1), None);
    assert_eq!(engine.get_delegate_count(2), 0);
    assert_eq!(engine.get_delegators(1), Vec::<u64>::new());
    assert_eq!(engine.get_candidate(1).unwrap().total_delegations, 0);
    assert_eq!(engine.get_account(2), AccountBalance { free: 500, held: 0 });
}

#[test]
fn partial_undelegation_keeps_the_record() {
    let mut engine = DposEngine::new(16);
    assert_eq!(engine.deposit(1, 100), Ok(()));
    assert_eq!(engine.register(1, 100), Ok(()));
    assert_eq!(engine.deposit(2, 60), Ok(()));
    assert_eq!(engine.delegate(2, 1, 60), Ok(60));
    assert_eq!(engine.undelegate(2, 1, 20), Ok(40));
    assert_eq!(engine.get_delegation(2, 1), Some(DelegationInfo { amount: 40 }));
    assert_eq!(engine.get_delegate_count(2), 1);
    assert_eq!(engine.get_delegators(1), vec![2]);
    assert_eq!(engine.get_account(2), AccountBalance { free: 20, held: 40 });
}

#[test]
fn undelegation_preserves_order_of_remaining_delegators() {
    let mut engine = DposEngine::new(16);
    assert_eq!(engine.deposit(1, 10), Ok(()));
    assert_eq!(engine.register(1, 10), Ok(()));
    let mut total: u128 = 0;
    for d in [5u64, 3, 9] {
        total += 10;
        assert_eq!(engine.deposit(d, 10), Ok(()));
        assert_eq!(engine.delegate(d, 1, 10), Ok(total));
    }
    assert_eq!(engine.get_delegators(1), vec![5, 3, 9]);
    assert_eq!(engine.undelegate(3, 1, 10), Ok(20));
    assert_eq!(engine.get_delegators(1), vec![5, 9]);
}

#[test]
fn delegate_rejects_zero_missing_candidate_and_cap() {
    let mut engine = DposEngine::new(1);
    assert_eq!(engine.max_delegations(), 1);
    assert_eq!(engine.deposit(1, 10), Ok(()));
    assert_eq!(engine.register(1, 10), Ok(()));
    assert_eq!(engine.deposit(4, 10), Ok(()));
    assert_eq!(engine.register(4, 10), Ok(()));
    assert_eq!(engine.deposit(2, 100), Ok(()));
    assert_eq!(engine.delegate(2, 1, 0), Err(DposError::ZeroAmount));
    assert_eq!(engine.delegate(2, 7, 5), Err(DposError::NotCandidate));
    assert_eq!(engine.delegate(2, 1, 5), Ok(5));
    assert_eq!(engine.delegate(2, 4, 5), Err(DposError::MaxDelegationsExceeded));
    assert_eq!(engine.get_delegate_count(2), 1);
}

#[test]
fn delegate_rejects_insufficient_free_balance() {
    let mut engine = DposEngine::new(16);
    assert_eq!(engine.deposit(1, 10), Ok(()));
    assert_eq!(engine.register(1, 10), Ok(()));
    assert_eq!(engine.deposit(2, 30), Ok(()));
    assert_eq!(engine.delegate(2, 1, 31), Err(DposError::InsufficientBalance));
    assert_eq!(engine.get_delegation(2, 1), None);
}

#[test]
fn undelegate_rejects_zero_missing_and_excessive() {
    let mut engine = DposEngine::new(16);
    assert_eq!(engine.deposit(1, 10), Ok(()));
    assert_eq!(engine.register(1, 10), Ok(()));
    assert_eq!(engine.deposit(2, 50), Ok(()));
    assert_eq!(engine.undelegate(2, 1, 0), Err(DposError::ZeroAmount));
    assert_eq!(engine.undelegate(2, 1, 5), Err(DposError::NoSuchDelegation));
    assert_eq!(engine.delegate(2, 1, 40), Ok(40));
    assert_eq!(engine.undelegate(2, 1, 41), Err(DposError::InsufficientDelegation));
    assert_eq!(engine.get_delegation(2, 1), Some(DelegationInfo { amount: 40 }));
}

#[test]
fn overflow_on_aggregate_leaves_every_store_unchanged() {
    let mut engine = DposEngine::new(16);
    assert_eq!(engine.register(1, 0), Ok(()));
    assert_eq!(engine.deposit(2, MAX), Ok(()));
    assert_eq!(engine.delegate(2, 1, MAX), Ok(MAX));
    assert_eq!(engine.deposit(3, 10), Ok(()));
    assert_eq!(engine.delegate(3, 1, 1), Err(DposError::ArithmeticOverflow));
    assert_eq!(engine.get_candidate(1).unwrap().total_delegations, MAX);
    assert_eq!(engine.get_delegation(3, 1), None);
    assert_eq!(engine.get_delegate_count(3), 0);
    assert_eq!(engine.get_delegators(1), vec![2]);
    assert_eq!(engine.get_account(3), AccountBalance { free: 10, held: 0 });
}

#[test]
fn overflow_on_single_record_leaves_state_unchanged() {
    let mut engine = DposEngine::new(16);
    assert_eq!(engine.register(1, 0), Ok(()));
    assert_eq!(engine.deposit(2, MAX), Ok(()));
    assert_eq!(engine.delegate(2, 1, MAX), Ok(MAX));
    assert_eq!(engine.delegate(2, 1, 1), Err(DposError::ArithmeticOverflow));
    assert_eq!(engine.get_delegation(2, 1), Some(DelegationInfo { amount: MAX }));
}

#[test]
fn deposit_rejects_overflowing_an_account() {
    let mut engine = DposEngine::new(16);
    assert_eq!(engine.deposit(1, MAX), Ok(()));
    assert_eq!(engine.deposit(1, 1), Err(DposError::ArithmeticOverflow));
    assert_eq!(engine.get_account(1), AccountBalance { free: MAX, held: 0 });
}

#[test]
fn toggle_status_flips_and_reports() {
    let mut engine = DposEngine::new(16);
    assert_eq!(engine.toggle_status(1), Err(DposError::NotCandidate));
    assert_eq!(engine.deposit(1, 10), Ok(()));
    assert_eq!(engine.register(1, 10), Ok(()));
    assert_eq!(engine.toggle_status(1), Ok(ValidatorStatus::Offline));
    assert_eq!(engine.toggle_status(1), Ok(ValidatorStatus::Online));
    assert_eq!(engine.get_candidate(1).unwrap().bond, 10);
}

#[test]
fn rebond_replaces_only_the_bond() {
    let mut engine = DposEngine::new(16);
    assert_eq!(engine.rebond(1, 5), Err(DposError::NotCandidate));
    assert_eq!(engine.deposit(1, 10), Ok(()));
    assert_eq!(engine.register(1, 10), Ok(()));
    assert_eq!(engine.deposit(2, 20), Ok(()));
    assert_eq!(engine.delegate(2, 1, 20), Ok(20));
    assert_eq!(engine.rebond(1, 500), Ok(()));
    let detail = engine.get_candidate(1).unwrap();
    assert_eq!(detail.bond, 500);
    assert_eq!(detail.total_delegations, 20);
    assert_eq!(detail.status, ValidatorStatus::Online);
}

#[test]
fn concrete_scenario_full_lifecycle() {
    let mut engine = DposEngine::new(16);
    assert_eq!(engine.deposit(10, 1000), Ok(()));
    assert_eq!(engine.register(10, 100), Ok(()));
    assert_eq!(engine.get_account(10), AccountBalance { free: 900, held: 100 });
    assert_eq!(
        engine.get_candidate(10),
        Some(CandidateDetail { bond: 100, total_delegations: 0, status: ValidatorStatus::Online })
    );
    assert_eq!(engine.deposit(20, 100), Ok(()));
    assert_eq!(engine.delegate(20, 10, 50), Ok(50));
    assert_eq!(engine.get_delegation(20, 10), Some(DelegationInfo { amount: 50 }));
    assert_eq!(engine.get_delegators(10), vec![20]);
    assert_eq!(engine.get_candidate(10).unwrap().total_delegations, 50);
    assert_eq!(engine.get_candidate(10).unwrap().total(), 150);
    assert_eq!(engine.delegate(20, 10, 30), Ok(80));
    assert_eq!(engine.get_delegation(20, 10), Some(DelegationInfo { amount: 80 }));
    assert_eq!(engine.get_delegate_count(20), 1);
    assert_eq!(engine.undelegate(20, 10, 80), Ok(0));
    assert_eq!(engine.get_delegation(20, 10), None);
    assert_eq!(engine.get_delegators(10), Vec::<u64>::new());
    assert_eq!(engine.get_delegate_count(20), 0);
    assert_eq!(engine.get_candidate(10).unwrap().total_delegations, 0);
}
