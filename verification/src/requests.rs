//! Request shapes of the surrounding service, reduced to plain values: the
//! write path hands these to the core before anything is persisted. Amounts
//! arrive here already converted to micro-units; floats stay outside.

use vstd::prelude::*;

use crate::division::{sum_division, validate_division, validate_spec};
use crate::ledger::DivisionError;

verus! {

/// A user named by id, as the membership endpoints send one.
#[derive(Clone, Copy, PartialEq, Eq, Structural, Debug)]
pub struct PutUser {
    pub user_id: i32,
}

/// A group to create or rename.
#[derive(Clone, Debug)]
pub struct PutGroup {
    pub name: String,
    pub description: Option<String>,
}

/// An invitation sent to a user by mail address.
#[derive(Clone, Debug)]
pub struct InviteUser {
    pub email: String,
    pub message: Option<String>,
}

/// A proposed expense: what it cost, who paid, and how it divides over the
/// participants, in micro-units.
#[derive(Clone, Debug)]
pub struct PutExpense {
    pub desc: String,
    pub total_amount: i64,
    pub paid_by: i32,
    pub division: Vec<(i32, i64)>,
}

/// Validates a proposed expense's division against the scope's membership;
/// only an expense that passes may be persisted.
pub fn validate_expense(expense: &PutExpense, members: &Vec<i32>) -> (r: Result<
    (),
    DivisionError,
>)
    requires
        expense.total_amount > 0,
        expense.division@.len() > 0,
        forall|i: int| 0 <= i < expense.division@.len() ==> (#[trigger] expense.division@[i]).1
            >= 0,
        sum_division(expense.division@) <= i64::MAX,
    ensures
        r == validate_spec(expense.total_amount as int, expense.division@, members@),
{
    validate_division(expense.total_amount, &expense.division, members)
}

} // verus!
