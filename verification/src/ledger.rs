//! Data model of the expense ledger: participation records, derived net
//! balances, settle-up transfers, and the error taxonomy, together with the
//! mathematical model the contracts are stated over.

use vstd::prelude::*;

verus! {

/// Number of micro-units in one currency unit. All amounts in the core are
/// integers at this scale.
pub const MICROS_PER_UNIT: i64 = 1_000_000;

/// One participation record: within the expense `expense_id`, the user
/// `participant_id` owes `amount_due` toward what `payer_id` paid.
/// `amount_due` is `None` while a share is not yet assigned; such records are
/// rejected by the division validator and never reach the balance engine.
#[derive(Clone, Copy, Debug)]
pub struct LedgerEntry {
    pub expense_id: i32,
    pub payer_id: i32,
    pub participant_id: i32,
    pub amount_due: Option<i64>,
}

/// Derived, per scope: how much `user_id` is owed (positive) or owes
/// (negative), in micro-units.
#[derive(Clone, Copy, PartialEq, Eq, Structural, Debug)]
pub struct NetBalance {
    pub user_id: i32,
    pub net_amount: i64,
}

/// One step of a settlement plan: `from_user` pays `to_user` `amount`
/// micro-units.
#[derive(Clone, Copy, PartialEq, Eq, Structural, Debug)]
pub struct SettlementTransfer {
    pub from_user: i32,
    pub to_user: i32,
    pub amount: i64,
}

/// Failure of a balance query: the snapshot's nets do not cancel out, which
/// signals corrupted ledger data upstream; no partial plan is returned.
#[derive(Clone, Copy, PartialEq, Eq, Structural, Debug)]
pub enum BalanceError {
    ConservationViolation,
}

/// Rejection of a proposed division.
#[derive(Clone, Copy, PartialEq, Eq, Structural, Debug)]
pub enum DivisionError {
    /// The shares do not sum to the expense total; carries the expected and
    /// the actual sum for diagnostics.
    DivisionMismatch { expected: i64, actual: i64 },
    /// A user holds two shares of the same expense.
    DuplicateParticipant(i32),
    /// The division references a user outside the expense's scope.
    NotAMember(i32),
    /// The membership collaborator failed; the check fails closed.
    DependencyUnavailable,
}

impl LedgerEntry {
    /// A share has been assigned.
    pub open spec fn resolved(self) -> bool {
        self.amount_due is Some
    }

    /// Shares are never negative.
    pub open spec fn wf(self) -> bool {
        match self.amount_due {
            Some(a) => a >= 0,
            None => true,
        }
    }

    /// The assigned share, as a mathematical integer (zero while unassigned).
    pub open spec fn amount(self) -> int {
        match self.amount_due {
            Some(a) => a as int,
            None => 0,
        }
    }
}

/// What one entry does to the net balance of user `u`: the payer is owed the
/// share, the participant owes it. When payer and participant coincide the
/// two cancel, which is correct: a self-share is not a debt.
pub open spec fn contribution(e: LedgerEntry, u: i32) -> int {
    (if e.payer_id == u { e.amount() } else { 0 }) - (if e.participant_id == u { e.amount() } else { 0 })
}

/// Net balance of user `u` over a sequence of entries.
pub open spec fn net_of(entries: Seq<LedgerEntry>, u: i32) -> int
    decreases entries.len(),
{
    if entries.len() == 0 {
        0
    } else {
        net_of(entries.drop_last(), u) + contribution(entries.last(), u)
    }
}

/// Whether user `u` takes part in any entry, as payer or participant.
pub open spec fn appears(entries: Seq<LedgerEntry>, u: i32) -> bool {
    exists|i: int| 0 <= i < entries.len() && ((#[trigger] entries[i]).payer_id == u || entries[i].participant_id == u)
}

/// Sum of all assigned shares.
pub open spec fn sum_amounts(entries: Seq<LedgerEntry>) -> int
    decreases entries.len(),
{
    if entries.len() == 0 {
        0
    } else {
        sum_amounts(entries.drop_last()) + entries.last().amount()
    }
}

/// Ghost rendering of a balance snapshot: user id paired with the exact net.
pub open spec fn net_view(bals: Seq<NetBalance>) -> Seq<(i32, int)> {
    bals.map_values(|b: NetBalance| (b.user_id, b.net_amount as int))
}

/// Ghost rendering of a settlement plan: (from, to, amount) triples.
pub open spec fn plan_view(plan: Seq<SettlementTransfer>) -> Seq<(i32, i32, int)> {
    plan.map_values(|t: SettlementTransfer| (t.from_user, t.to_user, t.amount as int))
}

/// Sum of the nets of a snapshot; zero in every closed scope.
pub open spec fn sum_nets(bals: Seq<(i32, int)>) -> int
    decreases bals.len(),
{
    if bals.len() == 0 {
        0
    } else {
        sum_nets(bals.drop_last()) + bals.last().1
    }
}

/// Each user holds at most one net in the snapshot.
pub open spec fn distinct_ids(bals: Seq<(i32, int)>) -> bool {
    forall|i: int, j: int| 0 <= i < j < bals.len() ==> bals[i].0 != bals[j].0
}

/// The tolerance, in micro-units, within which a division's sum must meet its
/// expense total: one millionth of the total, and never below one micro-unit.
pub open spec fn tolerance(total: int) -> int {
    if total < MICROS_PER_UNIT as int {
        1
    } else {
        total / (MICROS_PER_UNIT as int)
    }
}

/// Computes the sum tolerance for an expense total.
pub fn tolerance_of(total: i64) -> (r: i64)
    requires
        total >= 0,
    ensures
        r == tolerance(total as int),
{
    if total < MICROS_PER_UNIT {
        1
    } else {
        total / MICROS_PER_UNIT
    }
}

} // verus!
