//! Balance engine tests: net-balance computation and settle-up planning on
//! concrete scenarios. Amounts are micro-units: 50.0 currency units are
//! written 50_000_000.

use split_ledger::balance::{compute_net_balances, entries_ready};
use split_ledger::ledger::{BalanceError, LedgerEntry, NetBalance, SettlementTransfer};
use split_ledger::settlement::{settle_balances, settlement_plan};

fn entry(expense_id: i32, payer: i32, participant: i32, amount: i64) -> LedgerEntry {
    LedgerEntry {
        expense_id,
        payer_id: payer,
        participant_id: participant,
        amount_due: Some(amount),
    }
}

const ALICE: i32 = 1;
const BOB: i32 = 2;
const CAROL: i32 = 3;

#[test]
fn scenario_two_way_expense() {
    // total 100.0 paid by alice, split 50.0 / 50.0 with bob
    let entries = vec![
        entry(1, ALICE, ALICE, 50_000_000),
        entry(1, ALICE, BOB, 50_000_000),
    ];
    let balances = compute_net_balances(&entries);
    assert_eq!(
        balances,
        vec![
            NetBalance { user_id: ALICE, net_amount: 50_000_000 },
            NetBalance { user_id: BOB, net_amount: -50_000_000 },
        ]
    );
    let plan = settle_balances(&balances).unwrap();
    assert_eq!(
        plan,
        vec![SettlementTransfer { from_user: BOB, to_user: ALICE, amount: 50_000_000 }]
    );
}

#[test]
fn scenario_three_way_dinner() {
    // total 90.0 paid by alice, split 30.0 each; ties break by ascending id
    let entries = vec![
        entry(1, ALICE, ALICE, 30_000_000),
        entry(1, ALICE, BOB, 30_000_000),
        entry(1, ALICE, CAROL, 30_000_000),
    ];
    let balances = compute_net_balances(&entries);
    assert_eq!(
        balances,
        vec![
            NetBalance { user_id: ALICE, net_amount: 60_000_000 },
            NetBalance { user_id: BOB, net_amount: -30_000_000 },
            NetBalance { user_id: CAROL, net_amount: -30_000_000 },
        ]
    );
    let plan = settle_balances(&balances).unwrap();
    assert_eq!(
        plan,
        vec![
            SettlementTransfer { from_user: BOB, to_user: ALICE, amount: 30_000_000 },
            SettlementTransfer { from_user: CAROL, to_user: ALICE, amount: 30_000_000 },
        ]
    );
}

#[test]
fn conservation_over_mixed_entries() {
    // several expenses, several payers, one self-share: the nets cancel
    let entries = vec![
        entry(1, ALICE, BOB, 12_500_000),
        entry(1, ALICE, CAROL, 7_500_000),
        entry(2, BOB, ALICE, 4_000_000),
        entry(2, BOB, BOB, 4_000_000),
        entry(3, CAROL, ALICE, 33_000_000),
        entry(3, CAROL, BOB, 1),
    ];
    let balances = compute_net_balances(&entries);
    let total: i64 = balances.iter().map(|b| b.net_amount).sum();
    assert_eq!(total, 0);
}

#[test]
fn settlement_zeroes_every_balance() {
    let balances = vec![
        NetBalance { user_id: 10, net_amount: 70_000_000 },
        NetBalance { user_id: 11, net_amount: -20_000_000 },
        NetBalance { user_id: 12, net_amount: -45_000_000 },
        NetBalance { user_id: 13, net_amount: -5_000_000 },
        NetBalance { user_id: 14, net_amount: 0 },
    ];
    let plan = settle_balances(&balances).unwrap();
    let mut after: Vec<i64> = balances.iter().map(|b| b.net_amount).collect();
    for t in &plan {
        assert!(t.amount > 0);
        assert_ne!(t.from_user, t.to_user);
        for (k, b) in balances.iter().enumerate() {
            if b.user_id == t.from_user {
                after[k] += t.amount;
            }
            if b.user_id == t.to_user {
                after[k] -= t.amount;
            }
        }
    }
    for net in after {
        assert_eq!(net, 0);
    }
}

#[test]
fn settlement_never_exceeds_parties_minus_one() {
    let balances = vec![
        NetBalance { user_id: 1, net_amount: 10 },
        NetBalance { user_id: 2, net_amount: 20 },
        NetBalance { user_id: 3, net_amount: -5 },
        NetBalance { user_id: 4, net_amount: -25 },
        NetBalance { user_id: 5, net_amount: 0 },
    ];
    // four users are unsettled, so at most three transfers
    let plan = settle_balances(&balances).unwrap();
    assert!(plan.len() <= 3);
}

#[test]
fn engine_is_deterministic() {
    let entries = vec![
        entry(1, ALICE, BOB, 9_999_999),
        entry(2, CAROL, ALICE, 123),
        entry(2, CAROL, BOB, 77),
        entry(3, BOB, CAROL, 10_000_199),
    ];
    let first_balances = compute_net_balances(&entries);
    let second_balances = compute_net_balances(&entries);
    assert_eq!(first_balances, second_balances);
    let first_plan = settlement_plan(&entries);
    let second_plan = settlement_plan(&entries);
    assert_eq!(first_plan, second_plan);
}

#[test]
fn empty_scope_yields_empty_results() {
    let entries: Vec<LedgerEntry> = Vec::new();
    let balances = compute_net_balances(&entries);
    assert!(balances.is_empty());
    let plan = settle_balances(&balances).unwrap();
    assert!(plan.is_empty());
}

#[test]
fn payer_own_share_is_not_a_debt() {
    let entries = vec![entry(1, ALICE, ALICE, 42_000_000)];
    let balances = compute_net_balances(&entries);
    assert_eq!(balances, vec![NetBalance { user_id: ALICE, net_amount: 0 }]);
    let plan = settle_balances(&balances).unwrap();
    assert!(plan.is_empty());
}

#[test]
fn settled_users_never_appear_in_the_plan() {
    let balances = vec![
        NetBalance { user_id: 1, net_amount: 0 },
        NetBalance { user_id: 2, net_amount: 30_000_000 },
        NetBalance { user_id: 3, net_amount: -30_000_000 },
    ];
    let plan = settle_balances(&balances).unwrap();
    assert_eq!(
        plan,
        vec![SettlementTransfer { from_user: 3, to_user: 2, amount: 30_000_000 }]
    );
}

#[test]
fn unassigned_or_oversized_shares_are_not_ready() {
    assert!(entries_ready(&vec![entry(1, ALICE, BOB, 10)]));
    let unassigned = LedgerEntry {
        expense_id: 1,
        payer_id: ALICE,
        participant_id: BOB,
        amount_due: None,
    };
    assert!(!entries_ready(&vec![unassigned]));
    let oversized = vec![entry(1, ALICE, BOB, i64::MAX), entry(2, ALICE, CAROL, 1)];
    assert!(!entries_ready(&oversized));
}

#[test]
fn non_conserving_snapshot_is_rejected() {
    let balances = vec![NetBalance { user_id: 1, net_amount: 5 }];
    assert_eq!(settle_balances(&balances), Err(BalanceError::ConservationViolation));
}

#[test]
fn largest_magnitudes_are_matched_first() {
    let balances = vec![
        NetBalance { user_id: 5, net_amount: -10_000_000 },
        NetBalance { user_id: 6, net_amount: 25_000_000 },
        NetBalance { user_id: 7, net_amount: -15_000_000 },
    ];
    let plan = settle_balances(&balances).unwrap();
    assert_eq!(
        plan,
        vec![
            SettlementTransfer { from_user: 7, to_user: 6, amount: 15_000_000 },
            SettlementTransfer { from_user: 5, to_user: 6, amount: 10_000_000 },
        ]
    );
}
