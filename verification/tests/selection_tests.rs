use pallets::currency;
use pallets::staking;

fn three_validators() -> (currency::Barrel, staking::Barrel) {
    let mut ledger = currency::Barrel::new();
    ledger.mint(1, 10);
    ledger.mint(2, 20);
    ledger.mint(3, 30);
    let mut stakes = staking::Barrel::new();
    assert_eq!(stakes.register(&ledger, 1, 10), Ok(()));
    assert_eq!(stakes.register(&ledger, 2, 20), Ok(()));
    assert_eq!(stakes.register(&ledger, 3, 30), Ok(()));
    (ledger, stakes)
}

#[test]
fn hook_is_inert_off_era_boundaries() {
    let (_ledger, mut stakes) = three_validators();

    // block zero is explicitly no boundary
    stakes.on_initialize(0, 3, 2);
    assert!(stakes.active_validators().is_empty());

    // blocks that are no multiple of the era duration change nothing
    stakes.on_initialize(1, 3, 2);
    stakes.on_initialize(2, 3, 2);
    stakes.on_initialize(4, 3, 2);
    assert!(stakes.active_validators().is_empty());

    // once a boundary has written the set, later non-boundaries keep it
    stakes.on_initialize(3, 3, 2);
    assert_eq!(stakes.active_validators(), &vec![3, 2]);
    stakes.on_initialize(4, 3, 2);
    stakes.on_initialize(5, 3, 2);
    assert_eq!(stakes.active_validators(), &vec![3, 2]);
}

#[test]
fn boundary_set_length_is_min_of_count_and_validators() {
    let (_ledger, mut stakes) = three_validators();

    // more slots than validators: keep all
    stakes.on_initialize(3, 3, 10);
    assert_eq!(stakes.active_validators(), &vec![3, 2, 1]);

    // as many slots as validators
    stakes.on_initialize(6, 3, 3);
    assert_eq!(stakes.active_validators(), &vec![3, 2, 1]);

    // fewer slots than validators: truncate
    stakes.on_initialize(9, 3, 2);
    assert_eq!(stakes.active_validators(), &vec![3, 2]);

    // no slots at all
    stakes.on_initialize(12, 3, 0);
    assert!(stakes.active_validators().is_empty());
}

#[test]
fn boundary_with_no_validators_writes_empty_set() {
    let mut stakes = staking::Barrel::new();
    stakes.on_initialize(3, 3, 2);
    assert!(stakes.active_validators().is_empty());
}

#[test]
fn equal_stakes_rank_by_ascending_account() {
    let mut ledger = currency::Barrel::new();
    ledger.mint(7, 20);
    ledger.mint(5, 20);
    ledger.mint(2, 10);
    let mut stakes = staking::Barrel::new();
    assert_eq!(stakes.register(&ledger, 7, 20), Ok(()));
    assert_eq!(stakes.register(&ledger, 5, 20), Ok(()));
    assert_eq!(stakes.register(&ledger, 2, 10), Ok(()));

    stakes.on_initialize(3, 3, 3);
    assert_eq!(stakes.active_validators(), &vec![5, 7, 2]);
}

#[test]
fn delegation_boosts_ranking() {
    let (ledger, mut stakes) = three_validators();
    let mut ledger = ledger;
    ledger.mint(42, 30);
    assert_eq!(stakes.delegate(&ledger, 42, 1, 30), Ok(()));

    // validator 1 now totals 40 and overtakes validator 3
    stakes.on_initialize(3, 3, 2);
    assert_eq!(stakes.active_validators(), &vec![1, 3]);
}

#[test]
fn every_era_duration_divides_its_multiples() {
    let (_ledger, mut stakes) = three_validators();
    // an era duration of one makes every positive block a boundary
    stakes.on_initialize(1, 1, 1);
    assert_eq!(stakes.active_validators(), &vec![3]);
    // but never block zero
    let mut fresh = staking::Barrel::new();
    fresh.on_initialize(0, 1, 1);
    assert!(fresh.active_validators().is_empty());
}

#[test]
fn rerunning_the_hook_on_unchanged_state_is_idempotent() {
    let (_ledger, mut stakes) = three_validators();
    stakes.on_initialize(3, 3, 2);
    let first = stakes.active_validators().clone();
    stakes.on_initialize(3, 3, 2);
    assert_eq!(stakes.active_validators(), &first);
}

#[test]
fn staking_genesis_applies_registrations_and_delegations() {
    let ledger = match (currency::GenesisConfig {
        balances: vec![(1, 10), (2, 20), (42, 30)],
    })
    .build()
    {
        Some(ledger) => ledger,
        None => panic!("duplicate balance in genesis"),
    };
    let stakes = match (staking::GenesisConfig {
        validators: vec![(1, 10), (2, 20)],
        delegators: vec![(42, 1, 30)],
    })
    .build(&ledger)
    {
        Some(stakes) => stakes,
        None => panic!("inconsistent staking genesis"),
    };
    assert_eq!(
        stakes.validator(1),
        Some(staking::ValidatorStake { own: 10, delegated: 30 })
    );
    assert_eq!(
        stakes.validator(2),
        Some(staking::ValidatorStake { own: 20, delegated: 0 })
    );
    assert_eq!(stakes.delegator(42), Some(30));
    assert!(stakes.active_validators().is_empty());
}
