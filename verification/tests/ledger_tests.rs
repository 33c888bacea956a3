use serp_market::{Ledger, LedgerError};

const DNAR: u64 = 1;
const JUSD: u64 = 2;
const ALICE: u64 = 10;
const BOB: u64 = 11;

#[test]
fn deposit_and_read_back() {
    let mut ledger = Ledger::new();
    assert_eq!(ledger.total_issuance(JUSD), 0);
    assert_eq!(ledger.free_balance(JUSD, ALICE), 0);
    ledger.deposit(JUSD, ALICE, 100).unwrap();
    ledger.deposit(JUSD, BOB, 50).unwrap();
    ledger.deposit(DNAR, ALICE, 7).unwrap();
    assert_eq!(ledger.free_balance(JUSD, ALICE), 100);
    assert_eq!(ledger.free_balance(JUSD, BOB), 50);
    assert_eq!(ledger.free_balance(DNAR, ALICE), 7);
    assert_eq!(ledger.total_issuance(JUSD), 150);
    assert_eq!(ledger.total_issuance(DNAR), 7);
}

#[test]
fn deposit_overflow_is_refused() {
    let mut ledger = Ledger::new();
    ledger.deposit(JUSD, ALICE, u64::MAX).unwrap();
    assert_eq!(ledger.deposit(JUSD, BOB, 1), Err(LedgerError::Overflow));
    assert_eq!(ledger.free_balance(JUSD, BOB), 0);
    assert_eq!(ledger.total_issuance(JUSD), u64::MAX);
}

#[test]
fn withdraw_and_insufficient_free() {
    let mut ledger = Ledger::new();
    ledger.deposit(JUSD, ALICE, 100).unwrap();
    ledger.withdraw(JUSD, ALICE, 30).unwrap();
    assert_eq!(ledger.free_balance(JUSD, ALICE), 70);
    assert_eq!(ledger.total_issuance(JUSD), 70);
    assert_eq!(ledger.withdraw(JUSD, ALICE, 71), Err(LedgerError::InsufficientFree));
    assert_eq!(ledger.free_balance(JUSD, ALICE), 70);
}

#[test]
fn reserve_unreserve_round_trip() {
    let mut ledger = Ledger::new();
    ledger.deposit(JUSD, ALICE, 100).unwrap();
    ledger.reserve(JUSD, ALICE, 40).unwrap();
    assert_eq!(ledger.free_balance(JUSD, ALICE), 60);
    assert_eq!(ledger.reserved_balance(JUSD, ALICE), 40);
    // Reserving moves value without touching issuance.
    assert_eq!(ledger.total_issuance(JUSD), 100);
    assert_eq!(ledger.reserve(JUSD, ALICE, 61), Err(LedgerError::InsufficientFree));
    ledger.unreserve(JUSD, ALICE, 40).unwrap();
    assert_eq!(ledger.free_balance(JUSD, ALICE), 100);
    assert_eq!(ledger.reserved_balance(JUSD, ALICE), 0);
    assert_eq!(ledger.unreserve(JUSD, ALICE, 1), Err(LedgerError::InsufficientReserved));
}

#[test]
fn deposit_reserved_and_slash_reserved() {
    let mut ledger = Ledger::new();
    ledger.deposit_reserved(JUSD, ALICE, 80).unwrap();
    assert_eq!(ledger.reserved_balance(JUSD, ALICE), 80);
    assert_eq!(ledger.total_issuance(JUSD), 80);
    ledger.slash_reserved(JUSD, ALICE, 30).unwrap();
    assert_eq!(ledger.reserved_balance(JUSD, ALICE), 50);
    assert_eq!(ledger.total_issuance(JUSD), 50);
    assert_eq!(ledger.slash_reserved(JUSD, ALICE, 51), Err(LedgerError::InsufficientReserved));
}

#[test]
fn transfer_moves_free_balance() {
    let mut ledger = Ledger::new();
    ledger.deposit(JUSD, ALICE, 100).unwrap();
    ledger.transfer(JUSD, ALICE, BOB, 25).unwrap();
    assert_eq!(ledger.free_balance(JUSD, ALICE), 75);
    assert_eq!(ledger.free_balance(JUSD, BOB), 25);
    assert_eq!(ledger.total_issuance(JUSD), 100);
    assert_eq!(ledger.transfer(JUSD, ALICE, BOB, 76), Err(LedgerError::InsufficientFree));
    // A transfer to oneself is a no-op.
    ledger.transfer(JUSD, ALICE, ALICE, 10).unwrap();
    assert_eq!(ledger.free_balance(JUSD, ALICE), 75);
}

#[test]
fn issuance_matches_account_totals() {
    let mut ledger = Ledger::new();
    ledger.deposit(JUSD, ALICE, 100).unwrap();
    ledger.deposit(JUSD, BOB, 60).unwrap();
    ledger.reserve(JUSD, ALICE, 30).unwrap();
    ledger.deposit_reserved(JUSD, BOB, 15).unwrap();
    ledger.withdraw(JUSD, BOB, 5).unwrap();
    ledger.transfer(JUSD, ALICE, BOB, 20).unwrap();
    let total = ledger.free_balance(JUSD, ALICE) + ledger.reserved_balance(JUSD, ALICE)
        + ledger.free_balance(JUSD, BOB) + ledger.reserved_balance(JUSD, BOB);
    assert_eq!(ledger.total_issuance(JUSD), total);
    assert_eq!(total, 170);
}
