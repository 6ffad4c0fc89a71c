use dpos::engine::DposEngine;
use dpos::snapshot::EpochSnapshot;

#[test]
fn default_snapshot_is_empty() {
    let snap = EpochSnapshot::default();
    assert!(snap.validators.is_empty());
    assert!(snap.delegations.is_empty());
}

#[test]
fn add_validator_and_add_delegator_record_entries() {
    let mut snap = EpochSnapshot::default();
    snap.add_validator(1, 100);
    snap.add_validator(2, 250);
    snap.add_delegator(7, 1, 40);
    assert_eq!(snap.validators.get(&1), Some(&100));
    assert_eq!(snap.validators.get(&2), Some(&250));
    assert_eq!(snap.delegations.get(&(7, 1)), Some(&40));
    assert_eq!(snap.validators.len(), 2);
    assert_eq!(snap.delegations.len(), 1);
}

#[test]
fn build_snapshot_captures_bonds_and_delegations() {
    let mut engine = DposEngine::new(16);
    for (c, bond) in [(3u64, 30u128), (1, 10), (2, 20)] {
        assert_eq!(engine.deposit(c, bond), Ok(()));
        assert_eq!(engine.register(c, bond), Ok(()));
    }
    assert_eq!(engine.deposit(9, 100), Ok(()));
    assert_eq!(engine.delegate(9, 1, 25), Ok(25));
    assert_eq!(engine.delegate(9, 3, 35), Ok(35));
    let snap = engine.build_snapshot();
    let validators: Vec<(u64, u128)> = snap.validators.iter().map(|(k, v)| (*k, *v)).collect();
    assert_eq!(validators, vec![(1, 10), (2, 20), (3, 30)]);
    let delegations: Vec<((u64, u64), u128)> =
        snap.delegations.iter().map(|(k, v)| (*k, *v)).collect();
    assert_eq!(delegations, vec![((9, 1), 25), ((9, 3), 35)]);
}

#[test]
fn building_twice_from_unchanged_state_is_identical() {
    let mut engine = DposEngine::new(16);
    for (c, bond) in [(5u64, 50u128), (4, 40)] {
        assert_eq!(engine.deposit(c, bond), Ok(()));
        assert_eq!(engine.register(c, bond), Ok(()));
    }
    assert_eq!(engine.deposit(8, 60), Ok(()));
    assert_eq!(engine.delegate(8, 4, 15), Ok(15));
    let first = engine.build_snapshot();
    let second = engine.build_snapshot();
    assert_eq!(first.validators, second.validators);
    assert_eq!(first.delegations, second.delegations);
}

#[test]
fn snapshot_outlives_later_mutations() {
    let mut engine = DposEngine::new(16);
    assert_eq!(engine.deposit(1, 10), Ok(()));
    assert_eq!(engine.register(1, 10), Ok(()));
    let snap = engine.build_snapshot();
    assert_eq!(engine.deposit(2, 10), Ok(()));
    assert_eq!(engine.delegate(2, 1, 10), Ok(10));
    assert_eq!(snap.validators.get(&1), Some(&10));
    assert!(snap.delegations.is_empty());
}

#[test]
fn genesis_snapshot_takes_candidate_and_bond_only() {
    let set: Vec<(u64, u128, u128)> = vec![(1, 100, 7), (2, 200, 9)];
    let snap = EpochSnapshot::from_genesis(&set);
    assert_eq!(snap.validators.get(&1), Some(&100));
    assert_eq!(snap.validators.get(&2), Some(&200));
    assert_eq!(snap.validators.len(), 2);
    assert!(snap.delegations.is_empty());
}

#[test]
fn genesis_snapshot_of_empty_set_is_empty() {
    let set: Vec<(u64, u128, u128)> = Vec::new();
    let snap = EpochSnapshot::from_genesis(&set);
    assert!(snap.validators.is_empty());
    assert!(snap.delegations.is_empty());
}
