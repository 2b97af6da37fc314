use pallets::currency;
use pallets::staking;
use pallets::staking::ValidatorStake;

const ERA_DURATION: u64 = 3;

struct ExtBuilder {
    validators: Vec<(u64, u128)>,
    delegators: Vec<(u64, u64, u128)>,
    balances: Vec<(u64, u128)>,
}

impl Default for ExtBuilder {
    fn default() -> Self {
        let instance = Self { validators: Vec::new(), delegators: Vec::new(), balances: Vec::new() };
        instance.add_validator(1, 10).add_validator(2, 20).add_validator(3, 30)
    }
}

impl ExtBuilder {
    fn add_validator(mut self, validator: u64, self_stake: u128) -> Self {
        self.balances.push((validator, self_stake));
        self.validators.push((validator, self_stake));
        self
    }

    fn add_delegator(mut self, delegator: u64, delegatee: u64, stake: u128) -> Self {
        self.balances.push((delegator, stake));
        self.delegators.push((delegator, delegatee, stake));
        self
    }

    fn build(self) -> (currency::Barrel, staking::Barrel) {
        let ledger = match (currency::GenesisConfig { balances: self.balances }).build() {
            Some(ledger) => ledger,
            None => panic!("duplicate balance in genesis"),
        };
        let stakes = match (staking::GenesisConfig {
            validators: self.validators,
            delegators: self.delegators,
        })
        .build(&ledger)
        {
            Some(stakes) => stakes,
            None => panic!("inconsistent staking genesis"),
        };
        (ledger, stakes)
    }
}

struct Chain {
    now: u64,
    validator_count: u32,
    stakes: staking::Barrel,
}

impl Chain {
    fn start(stakes: staking::Barrel, validator_count: u32) -> Self {
        let mut chain = Chain { now: 0, validator_count, stakes };
        // process block 0 to simulate a proper genesis; a no-op for the hook
        chain.next_block();
        chain
    }

    fn next_block(&mut self) {
        self.stakes.on_initialize(self.now, ERA_DURATION, self.validator_count);
        self.now += 1;
    }
}

#[test]
fn staking_basic_setup_works() {
    let (_ledger, stakes) = ExtBuilder::default().build();
    let chain = Chain::start(stakes, 2);
    assert_eq!(chain.now, 1);
    assert_eq!(
        chain.stakes.validator(1),
        Some(ValidatorStake { own: 10, delegated: 0 })
    );
    assert_eq!(
        chain.stakes.validator(2),
        Some(ValidatorStake { own: 20, delegated: 0 })
    );
    assert_eq!(
        chain.stakes.validator(3),
        Some(ValidatorStake { own: 30, delegated: 0 })
    );
    assert_eq!(chain.stakes.num_validators(), 3);
    assert!(chain.stakes.active_validators().is_empty());
}

#[test]
fn staking_selects_validators() {
    let (_ledger, stakes) = ExtBuilder::default().build();
    let mut chain = Chain::start(stakes, 2);

    // when processing block 1, nothing will happen.
    chain.next_block();
    assert!(chain.stakes.active_validators().is_empty());

    // when processing block 2, nothing will happen.
    chain.next_block();
    assert!(chain.stakes.active_validators().is_empty());

    // when processing block 3, new validators will be selected.
    chain.next_block();
    assert_eq!(chain.stakes.active_validators(), &vec![3, 2]);
}

#[test]
fn staking_considers_delegators() {
    let (_ledger, stakes) = ExtBuilder::default().add_delegator(42, 1, 30).build();
    let mut chain = Chain::start(stakes, 2);
    assert!(chain.stakes.delegator(42).is_some());

    // when processing block 1 and 2, nothing will happen.
    chain.next_block();
    chain.next_block();
    assert!(chain.stakes.active_validators().is_empty());

    // when processing block 3, new validators will be selected.
    chain.next_block();
    assert_eq!(chain.stakes.active_validators(), &vec![1, 3]);
}

#[test]
fn staking_selects_right_number_of_validators() {
    let (_ledger, stakes) = ExtBuilder::default().build();
    let mut chain = Chain::start(stakes, 2);

    // when processing block 1 and 2, nothing will happen.
    chain.next_block();
    chain.next_block();
    assert!(chain.stakes.active_validators().is_empty());

    chain.validator_count = 3;
    chain.next_block();
    assert_eq!(chain.stakes.active_validators(), &vec![3, 2, 1]);

    // blocks 4 and 5 are no era boundary and change nothing.
    chain.next_block();
    chain.next_block();
    assert_eq!(chain.stakes.active_validators(), &vec![3, 2, 1]);

    chain.validator_count = 1;
    chain.next_block();
    assert_eq!(chain.stakes.active_validators(), &vec![3]);
}

#[test]
fn register_twice_fails_and_keeps_record() {
    let mut ledger = currency::Barrel::new();
    ledger.mint(7, 50);
    let mut stakes = staking::Barrel::new();
    assert_eq!(stakes.register(&ledger, 7, 20), Ok(()));
    assert_eq!(
        stakes.register(&ledger, 7, 5),
        Err(staking::StakingError::AlreadyRegistered)
    );
    assert_eq!(
        stakes.validator(7),
        Some(ValidatorStake { own: 20, delegated: 0 })
    );
}

#[test]
fn register_without_funds_fails() {
    let mut ledger = currency::Barrel::new();
    ledger.mint(7, 50);
    let mut stakes = staking::Barrel::new();
    // a balance below the stake is insufficient
    assert_eq!(
        stakes.register(&ledger, 7, 51),
        Err(staking::StakingError::InsufficientFunds)
    );
    // a missing balance entry is insufficient, even for a zero stake
    assert_eq!(
        stakes.register(&ledger, 8, 0),
        Err(staking::StakingError::InsufficientFunds)
    );
    assert_eq!(stakes.num_validators(), 0);
}

#[test]
fn delegate_to_non_validator_fails() {
    let mut ledger = currency::Barrel::new();
    ledger.mint(42, 1000);
    let mut stakes = staking::Barrel::new();
    assert_eq!(
        stakes.delegate(&ledger, 42, 9, 30),
        Err(staking::StakingError::NotRegistered)
    );
    assert_eq!(stakes.delegator(42), None);
}

#[test]
fn delegate_twice_fails() {
    let mut ledger = currency::Barrel::new();
    ledger.mint(5, 100);
    ledger.mint(42, 100);
    let mut stakes = staking::Barrel::new();
    assert_eq!(stakes.register(&ledger, 5, 100), Ok(()));
    assert_eq!(stakes.delegate(&ledger, 42, 5, 40), Ok(()));
    assert_eq!(
        stakes.delegate(&ledger, 42, 5, 1),
        Err(staking::StakingError::AlreadyDelegator)
    );
    assert_eq!(
        stakes.validator(5),
        Some(ValidatorStake { own: 100, delegated: 40 })
    );
    assert_eq!(stakes.delegator(42), Some(40));
}

#[test]
fn delegate_without_funds_fails() {
    let mut ledger = currency::Barrel::new();
    ledger.mint(5, 100);
    ledger.mint(42, 10);
    let mut stakes = staking::Barrel::new();
    assert_eq!(stakes.register(&ledger, 5, 100), Ok(()));
    assert_eq!(
        stakes.delegate(&ledger, 42, 5, 11),
        Err(staking::StakingError::InsufficientFunds)
    );
    assert_eq!(
        stakes.delegate(&ledger, 43, 5, 0),
        Err(staking::StakingError::InsufficientFunds)
    );
    assert_eq!(
        stakes.validator(5),
        Some(ValidatorStake { own: 100, delegated: 0 })
    );
}

#[test]
fn staking_genesis_with_duplicate_validator_fails() {
    let mut ledger = currency::Barrel::new();
    ledger.mint(1, 100);
    let config = staking::GenesisConfig {
        validators: vec![(1, 10), (1, 20)],
        delegators: vec![],
    };
    assert!(config.build(&ledger).is_none());
}

#[test]
fn staking_genesis_with_unregistered_delegatee_fails() {
    let mut ledger = currency::Barrel::new();
    ledger.mint(1, 100);
    ledger.mint(42, 100);
    let config = staking::GenesisConfig {
        validators: vec![(1, 10)],
        delegators: vec![(42, 2, 30)],
    };
    assert!(config.build(&ledger).is_none());
}

#[test]
fn staking_genesis_with_underfunded_validator_fails() {
    let mut ledger = currency::Barrel::new();
    ledger.mint(1, 5);
    let config = staking::GenesisConfig { validators: vec![(1, 10)], delegators: vec![] };
    assert!(config.build(&ledger).is_none());
}
