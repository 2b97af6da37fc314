use pallets::currency::Barrel;
use pallets::currency::CurrencyError;
use pallets::currency::GenesisConfig;

const ALICE: u64 = 1;
const BOB: u64 = 2;
const EVE: u64 = 3;

fn build_ledger(balances: Vec<(u64, u128)>) -> Barrel {
    match (GenesisConfig { balances }).build() {
        Some(ledger) => ledger,
        None => panic!("duplicate balance in genesis"),
    }
}

fn default_ledger() -> Barrel {
    build_ledger(vec![(ALICE, 100), (BOB, 100)])
}

#[test]
fn currency_initial_state_works() {
    let ledger = default_ledger();
    assert_eq!(ledger.balance(ALICE), Some(100));
    assert_eq!(ledger.balance(BOB), Some(100));
    assert_eq!(ledger.balance(EVE), None);
    assert_eq!(ledger.total_issuance(), 200);
}

#[test]
fn ext_builder_works() {
    let ledger = build_ledger(vec![(ALICE, 100), (BOB, 100), (EVE, 42)]);
    assert_eq!(ledger.balance(EVE), Some(42));
    assert_eq!(ledger.total_issuance(), 242);
}

#[test]
#[should_panic]
fn duplicate_genesis_fails() {
    let ledger = build_ledger(vec![(ALICE, 100), (BOB, 100), (EVE, 42), (EVE, 43)]);
    assert_eq!(ledger.balance(EVE), None);
    assert_eq!(ledger.total_issuance(), 242);
}

#[test]
fn currency_test_mint() {
    let mut ledger = default_ledger();

    ledger.mint(BOB, 100);
    assert_eq!(ledger.balance(BOB), Some(200));
    assert_eq!(ledger.total_issuance(), 300);

    ledger.mint(EVE, 100);
    assert_eq!(ledger.balance(EVE), Some(100));
    assert_eq!(ledger.total_issuance(), 400);
}

#[test]
fn currency_transfer_works() {
    let mut ledger = default_ledger();

    assert_eq!(ledger.transfer(ALICE, BOB, 50), Ok(()));
    assert_eq!(ledger.balance(ALICE), Some(50));
    assert_eq!(ledger.balance(BOB), Some(150));
    assert_eq!(ledger.total_issuance(), 200);

    assert_eq!(ledger.transfer(BOB, ALICE, 50), Ok(()));
    assert_eq!(ledger.balance(ALICE), Some(100));
    assert_eq!(ledger.balance(BOB), Some(100));
    assert_eq!(ledger.total_issuance(), 200);
}

#[test]
fn currency_transfer_from_non_existent_fails() {
    let mut ledger = default_ledger();

    assert_eq!(
        ledger.transfer(EVE, ALICE, 10),
        Err(CurrencyError::NonExistentAccount)
    );
    assert_eq!(ledger.balance(ALICE), Some(100));
    assert_eq!(ledger.balance(BOB), Some(100));
    assert_eq!(ledger.balance(EVE), None);
    assert_eq!(ledger.total_issuance(), 200);

    // the identical call fails identically and moves nothing either time
    assert_eq!(
        ledger.transfer(EVE, ALICE, 10),
        Err(CurrencyError::NonExistentAccount)
    );
    assert_eq!(ledger.balance(ALICE), Some(100));
    assert_eq!(ledger.balance(BOB), Some(100));
    assert_eq!(ledger.balance(EVE), None);
    assert_eq!(ledger.total_issuance(), 200);
}

#[test]
fn transfer_with_insufficient_balance_fails() {
    let mut ledger = default_ledger();
    assert_eq!(
        ledger.transfer(ALICE, BOB, 150),
        Err(CurrencyError::InsufficientBalance)
    );
    assert_eq!(ledger.balance(ALICE), Some(100));
    assert_eq!(ledger.balance(BOB), Some(100));
    assert_eq!(ledger.total_issuance(), 200);
}

#[test]
fn transfer_whole_balance_keeps_entry() {
    let mut ledger = default_ledger();
    assert_eq!(ledger.transfer(ALICE, BOB, 100), Ok(()));
    assert_eq!(ledger.balance(ALICE), Some(0));
    assert_eq!(ledger.balance(BOB), Some(200));
    assert_eq!(ledger.total_issuance(), 200);
}

#[test]
fn transfer_to_self_changes_nothing() {
    let mut ledger = default_ledger();
    assert_eq!(ledger.transfer(ALICE, ALICE, 60), Ok(()));
    assert_eq!(ledger.balance(ALICE), Some(100));
    assert_eq!(ledger.total_issuance(), 200);
}

#[test]
fn mint_twice_accumulates() {
    let mut ledger = Barrel::new();
    ledger.mint(EVE, 100);
    ledger.mint(EVE, 100);
    assert_eq!(ledger.balance(EVE), Some(200));
    assert_eq!(ledger.total_issuance(), 200);
}

#[test]
fn empty_genesis_builds_empty_ledger() {
    let ledger = build_ledger(vec![]);
    assert_eq!(ledger.balance(ALICE), None);
    assert_eq!(ledger.total_issuance(), 0);
}

#[test]
fn genesis_with_zero_balance_keeps_entry() {
    let ledger = build_ledger(vec![(ALICE, 0)]);
    assert_eq!(ledger.balance(ALICE), Some(0));
    assert_eq!(ledger.total_issuance(), 0);
}

#[test]
fn genesis_overflowing_issuance_fails() {
    let config = GenesisConfig { balances: vec![(ALICE, u128::MAX), (BOB, 1)] };
    assert!(config.build().is_none());
}
