//! Division validator tests: acceptance, each rejection, the tolerance rule,
//! and order independence. Amounts are micro-units.

use split_ledger::division::{division_ready, validate_division, validate_division_with_membership};
use split_ledger::ledger::{tolerance_of, DivisionError};
use split_ledger::requests::{validate_expense, PutExpense};

const ALICE: i32 = 1;
const BOB: i32 = 2;
const CAROL: i32 = 3;

#[test]
fn scenario_sum_mismatch() {
    // total 100.0, shares 40.0 + 50.0
    let division = vec![(ALICE, 40_000_000), (BOB, 50_000_000)];
    let members = vec![ALICE, BOB];
    assert_eq!(
        validate_division(100_000_000, &division, &members),
        Err(DivisionError::DivisionMismatch { expected: 100_000_000, actual: 90_000_000 })
    );
}

#[test]
fn scenario_duplicate_participant() {
    let division = vec![(ALICE, 50_000_000), (ALICE, 50_000_000)];
    let members = vec![ALICE, BOB];
    assert_eq!(
        validate_division(100_000_000, &division, &members),
        Err(DivisionError::DuplicateParticipant(ALICE))
    );
}

#[test]
fn valid_division_is_accepted() {
    let division = vec![(ALICE, 30_000_000), (BOB, 30_000_000), (CAROL, 30_000_000)];
    let members = vec![ALICE, BOB, CAROL];
    assert_eq!(validate_division(90_000_000, &division, &members), Ok(()));
}

#[test]
fn validation_is_order_independent() {
    let members = vec![ALICE, BOB, CAROL];
    let forward = vec![(ALICE, 20_000_000), (BOB, 30_000_000), (CAROL, 50_000_000)];
    let backward = vec![(CAROL, 50_000_000), (BOB, 30_000_000), (ALICE, 20_000_000)];
    assert_eq!(validate_division(100_000_000, &forward, &members), Ok(()));
    assert_eq!(validate_division(100_000_000, &backward, &members), Ok(()));
}

#[test]
fn single_share_equal_to_total_is_valid() {
    let division = vec![(ALICE, 75_000_000)];
    let members = vec![ALICE];
    assert_eq!(validate_division(75_000_000, &division, &members), Ok(()));
}

#[test]
fn outsider_is_rejected() {
    let division = vec![(ALICE, 50_000_000), (4, 50_000_000)];
    let members = vec![ALICE, BOB, CAROL];
    assert_eq!(
        validate_division(100_000_000, &division, &members),
        Err(DivisionError::NotAMember(4))
    );
}

#[test]
fn duplicate_is_reported_before_mismatch_and_membership() {
    // the duplicated pair also breaks the sum and names an outsider
    let division = vec![(9, 1_000_000), (9, 1_000_000)];
    let members = vec![ALICE];
    assert_eq!(
        validate_division(99_000_000, &division, &members),
        Err(DivisionError::DuplicateParticipant(9))
    );
}

#[test]
fn failed_membership_lookup_fails_closed() {
    let division = vec![(ALICE, 50_000_000), (BOB, 50_000_000)];
    assert_eq!(
        validate_division_with_membership(100_000_000, &division, None),
        Err(DivisionError::DependencyUnavailable)
    );
    let members = vec![ALICE, BOB];
    assert_eq!(
        validate_division_with_membership(100_000_000, &division, Some(&members)),
        Ok(())
    );
}

#[test]
fn tolerance_scales_with_the_total() {
    // one millionth of the total, never below one micro-unit
    assert_eq!(tolerance_of(100_000_000), 100);
    assert_eq!(tolerance_of(500_000), 1);
    assert_eq!(tolerance_of(0), 1);
    assert_eq!(tolerance_of(10_000_000_000), 10_000);
}

#[test]
fn sums_inside_the_tolerance_pass() {
    let members = vec![ALICE, BOB];
    // total 10000.0: tolerance is 10_000 micro-units
    let just_inside = vec![(ALICE, 5_000_000_000), (BOB, 4_999_990_000)];
    assert_eq!(validate_division(10_000_000_000, &just_inside, &members), Ok(()));
    let just_outside = vec![(ALICE, 5_000_000_000), (BOB, 4_999_989_999)];
    assert_eq!(
        validate_division(10_000_000_000, &just_outside, &members),
        Err(DivisionError::DivisionMismatch {
            expected: 10_000_000_000,
            actual: 9_999_989_999,
        })
    );
}

#[test]
fn small_totals_keep_the_minimum_tolerance() {
    let members = vec![ALICE, BOB];
    // total 0.5: tolerance stays one micro-unit
    let off_by_one = vec![(ALICE, 250_000), (BOB, 249_999)];
    assert_eq!(validate_division(500_000, &off_by_one, &members), Ok(()));
    let off_by_two = vec![(ALICE, 250_000), (BOB, 249_998)];
    assert_eq!(
        validate_division(500_000, &off_by_two, &members),
        Err(DivisionError::DivisionMismatch { expected: 500_000, actual: 499_998 })
    );
}

#[test]
fn unrepresentable_proposals_are_not_ready() {
    assert!(division_ready(100_000_000, &vec![(ALICE, 50_000_000), (BOB, 50_000_000)]));
    assert!(!division_ready(0, &vec![(ALICE, 1)]));
    assert!(!division_ready(100, &Vec::new()));
    assert!(!division_ready(100, &vec![(ALICE, -1)]));
    assert!(!division_ready(100, &vec![(ALICE, i64::MAX), (BOB, 1)]));
}

#[test]
fn proposed_expense_is_checked_before_persisting() {
    let expense = PutExpense {
        desc: String::from("Cena"),
        total_amount: 100_000_000,
        paid_by: ALICE,
        division: vec![(ALICE, 50_000_000), (BOB, 50_000_000)],
    };
    let members = vec![ALICE, BOB];
    assert_eq!(validate_expense(&expense, &members), Ok(()));
    let wrong = PutExpense {
        desc: String::from("Cena"),
        total_amount: 100_000_000,
        paid_by: ALICE,
        division: vec![(ALICE, 50_000_000), (BOB, 40_000_000)],
    };
    assert_eq!(
        validate_expense(&wrong, &members),
        Err(DivisionError::DivisionMismatch { expected: 100_000_000, actual: 90_000_000 })
    );
}
