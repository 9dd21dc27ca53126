//! End-to-end checks of the ledger operations through the public surface.

use token::event::Event;
use token::event::LedgerError;
use token::ledger::Ledger;

const ALICE: u64 = 1;
const BOB: u64 = 2;
const CAROL: u64 = 3;

#[test]
fn fresh_ledger_is_empty() {
    let l = Ledger::new();
    assert_eq!(l.next_asset_id(), 0);
    assert_eq!(l.balance(0, ALICE), 0);
    assert_eq!(l.balance(7, BOB), 0);
    assert_eq!(l.total_supply(0), 0);
    assert_eq!(l.total_supply(7), 0);
    assert!(l.events().is_empty());
}

#[test]
fn issue_creates_a_fully_owned_class() {
    let mut l = Ledger::new();
    let r = l.issue(ALICE, 1000);
    assert_eq!(r, Ok(0));
    assert_eq!(l.balance(0, ALICE), 1000);
    assert_eq!(l.total_supply(0), 1000);
    assert_eq!(l.events().len(), 1);
    assert_eq!(l.events()[0], Event::Issued(0, ALICE, 1000));
}

#[test]
fn transfer_moves_units_between_holders() {
    let mut l = Ledger::new();
    assert_eq!(l.issue(ALICE, 1000), Ok(0));
    assert_eq!(l.transfer(ALICE, 0, BOB, 300), Ok(()));
    assert_eq!(l.balance(0, ALICE), 700);
    assert_eq!(l.balance(0, BOB), 300);
    assert_eq!(l.total_supply(0), 1000);
    assert_eq!(l.events()[1], Event::Transferred(0, ALICE, BOB, 300));
}

#[test]
fn zero_amount_transfer_is_rejected() {
    let mut l = Ledger::new();
    assert_eq!(l.issue(ALICE, 1000), Ok(0));
    assert_eq!(l.transfer(ALICE, 0, BOB, 300), Ok(()));
    assert_eq!(l.transfer(ALICE, 0, BOB, 0), Err(LedgerError::ZeroAmount));
    assert_eq!(l.balance(0, ALICE), 700);
    assert_eq!(l.balance(0, BOB), 300);
    assert_eq!(l.total_supply(0), 1000);
}

#[test]
fn insufficient_balance_transfer_is_rejected() {
    let mut l = Ledger::new();
    assert_eq!(l.issue(ALICE, 1000), Ok(0));
    assert_eq!(l.transfer(ALICE, 0, BOB, 300), Ok(()));
    assert_eq!(l.transfer(BOB, 0, ALICE, 9999), Err(LedgerError::InsufficientBalance));
    assert_eq!(l.balance(0, ALICE), 700);
    assert_eq!(l.balance(0, BOB), 300);
    assert_eq!(l.total_supply(0), 1000);
}

#[test]
fn destroy_burns_the_whole_holding() {
    let mut l = Ledger::new();
    assert_eq!(l.issue(ALICE, 1000), Ok(0));
    assert_eq!(l.transfer(ALICE, 0, BOB, 300), Ok(()));
    assert_eq!(l.destroy(BOB, 0), Ok(()));
    assert_eq!(l.balance(0, BOB), 0);
    assert_eq!(l.balance(0, ALICE), 700);
    assert_eq!(l.total_supply(0), 700);
    assert_eq!(l.events()[2], Event::Destroyed(0, BOB, 300));
}

#[test]
fn destroy_without_a_holding_is_rejected() {
    let mut l = Ledger::new();
    assert_eq!(l.issue(ALICE, 1000), Ok(0));
    assert_eq!(l.destroy(CAROL, 0), Err(LedgerError::ZeroBalance));
    assert_eq!(l.balance(0, ALICE), 1000);
    assert_eq!(l.balance(0, CAROL), 0);
    assert_eq!(l.total_supply(0), 1000);
    assert_eq!(l.events().len(), 1);
}

#[test]
fn issue_ids_increase_by_exactly_one() {
    let mut l = Ledger::new();
    assert_eq!(l.issue(ALICE, 10), Ok(0));
    assert_eq!(l.issue(BOB, 0), Ok(1));
    assert_eq!(l.issue(ALICE, 7), Ok(2));
    assert_eq!(l.next_asset_id(), 3);
}

#[test]
fn conservation_holds_across_operations() {
    let mut l = Ledger::new();
    assert_eq!(l.issue(ALICE, 1000), Ok(0));
    assert_eq!(l.issue(BOB, 50), Ok(1));
    assert_eq!(l.transfer(ALICE, 0, BOB, 300), Ok(()));
    assert_eq!(l.transfer(BOB, 0, CAROL, 120), Ok(()));
    assert_eq!(l.transfer(BOB, 1, ALICE, 50), Ok(()));
    assert_eq!(l.destroy(CAROL, 0), Ok(()));
    let holders = [ALICE, BOB, CAROL];
    for id in 0..2u32 {
        let sum: u64 = holders.iter().map(|&who| l.balance(id, who)).sum();
        assert_eq!(l.total_supply(id), sum);
    }
    assert_eq!(l.total_supply(0), 880);
    assert_eq!(l.total_supply(1), 50);
}

#[test]
fn queries_are_repeatable_pure_reads() {
    let mut l = Ledger::new();
    assert_eq!(l.issue(ALICE, 42), Ok(0));
    let b1 = l.balance(0, ALICE);
    let b2 = l.balance(0, ALICE);
    let s1 = l.total_supply(0);
    let s2 = l.total_supply(0);
    assert_eq!(b1, b2);
    assert_eq!(s1, s2);
    assert_eq!(l.events().len(), 1);
    assert_eq!(l.next_asset_id(), 1);
}

#[test]
fn rejected_operations_record_no_event() {
    let mut l = Ledger::new();
    assert_eq!(l.issue(ALICE, 5), Ok(0));
    assert_eq!(l.transfer(ALICE, 0, BOB, 0), Err(LedgerError::ZeroAmount));
    assert_eq!(l.transfer(ALICE, 0, BOB, 6), Err(LedgerError::InsufficientBalance));
    assert_eq!(l.destroy(BOB, 0), Err(LedgerError::ZeroBalance));
    assert_eq!(l.events().len(), 1);
    assert_eq!(l.balance(0, ALICE), 5);
    assert_eq!(l.total_supply(0), 5);
    assert_eq!(l.next_asset_id(), 1);
}

#[test]
fn self_transfer_keeps_the_balance_but_records_the_event() {
    let mut l = Ledger::new();
    assert_eq!(l.issue(ALICE, 100), Ok(0));
    assert_eq!(l.transfer(ALICE, 0, ALICE, 40), Ok(()));
    assert_eq!(l.balance(0, ALICE), 100);
    assert_eq!(l.total_supply(0), 100);
    assert_eq!(l.events()[1], Event::Transferred(0, ALICE, ALICE, 40));
}

#[test]
fn zero_total_issue_creates_an_empty_class() {
    let mut l = Ledger::new();
    assert_eq!(l.issue(ALICE, 0), Ok(0));
    assert_eq!(l.balance(0, ALICE), 0);
    assert_eq!(l.total_supply(0), 0);
    assert_eq!(l.events()[0], Event::Issued(0, ALICE, 0));
    assert_eq!(l.transfer(ALICE, 0, BOB, 1), Err(LedgerError::InsufficientBalance));
}

#[test]
fn transfer_from_an_unissued_class_is_rejected() {
    let mut l = Ledger::new();
    assert_eq!(l.transfer(ALICE, 9, BOB, 1), Err(LedgerError::InsufficientBalance));
    assert_eq!(l.balance(9, ALICE), 0);
    assert_eq!(l.total_supply(9), 0);
    assert!(l.events().is_empty());
}

#[test]
fn exhausted_id_space_rejects_issue_without_effect() {
    let mut l = Ledger {
        balances: Vec::new(),
        supplies: Vec::new(),
        next_id: u32::MAX,
        events: Vec::new(),
    };
    assert_eq!(l.issue(ALICE, 10), Err(LedgerError::IdSpaceExhausted));
    assert_eq!(l.next_asset_id(), u32::MAX);
    assert_eq!(l.balance(u32::MAX, ALICE), 0);
    assert_eq!(l.total_supply(u32::MAX), 0);
    assert!(l.events().is_empty());
}

#[test]
fn events_are_recorded_in_operation_order() {
    let mut l = Ledger::new();
    assert_eq!(l.issue(ALICE, 10), Ok(0));
    assert_eq!(l.transfer(ALICE, 0, BOB, 4), Ok(()));
    assert_eq!(l.destroy(ALICE, 0), Ok(()));
    assert_eq!(l.issue(BOB, 3), Ok(1));
    let want = vec![
        Event::Issued(0, ALICE, 10),
        Event::Transferred(0, ALICE, BOB, 4),
        Event::Destroyed(0, ALICE, 6),
        Event::Issued(1, BOB, 3),
    ];
    assert_eq!(l.events().as_slice(), want.as_slice());
}

#[test]
fn destroy_touches_only_the_caller_and_the_one_asset() {
    let mut l = Ledger::new();
    assert_eq!(l.issue(ALICE, 60), Ok(0));
    assert_eq!(l.issue(BOB, 9), Ok(1));
    assert_eq!(l.transfer(ALICE, 0, BOB, 25), Ok(()));
    assert_eq!(l.destroy(BOB, 0), Ok(()));
    assert_eq!(l.balance(0, BOB), 0);
    assert_eq!(l.balance(0, ALICE), 35);
    assert_eq!(l.balance(1, BOB), 9);
    assert_eq!(l.total_supply(0), 35);
    assert_eq!(l.total_supply(1), 9);
}
