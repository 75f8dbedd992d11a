//! Settle-up planning: turns a balance snapshot into a deterministic sequence
//! of transfers that zeroes every net, by greedy largest-magnitude matching.
//!
//! The greedy strategy does not promise the theoretical minimum number of
//! transfers (finding it is intractable in general); it promises at most one
//! transfer fewer than the number of unsettled users, and output that is a
//! pure function of the snapshot.

use vstd::prelude::*;

use crate::balance::{compute_net_balances, nets_spec};
use crate::ledger::{
    distinct_ids, net_view, plan_view, sum_amounts, sum_nets, BalanceError, LedgerEntry,
    NetBalance, SettlementTransfer,
};

verus! {

/// Whether a pair carries an unsettled net.
pub open spec fn active(b: (i32, int)) -> nat {
    if b.1 != 0 {
        1nat
    } else {
        0nat
    }
}

/// Number of users in the snapshot with an unsettled net.
pub open spec fn count_active(bals: Seq<(i32, int)>) -> nat
    decreases bals.len(),
{
    if bals.len() == 0 {
        0
    } else {
        count_active(bals.drop_last()) + active(bals.last())
    }
}

/// Index of the creditor owed the most, ties broken by ascending user id;
/// -1 when nobody is owed anything.
pub open spec fn pick_creditor(bals: Seq<(i32, int)>) -> int
    decreases bals.len(),
{
    if bals.len() == 0 {
        -1
    } else {
        let r = pick_creditor(bals.drop_last());
        let k = bals.len() - 1;
        if bals[k].1 <= 0 {
            r
        } else if r == -1 {
            k
        } else if bals[k].1 > bals[r].1 || (bals[k].1 == bals[r].1 && bals[k].0 < bals[r].0) {
            k
        } else {
            r
        }
    }
}

/// Index of the debtor owing the most, ties broken by ascending user id;
/// -1 when nobody owes anything.
pub open spec fn pick_debtor(bals: Seq<(i32, int)>) -> int
    decreases bals.len(),
{
    if bals.len() == 0 {
        -1
    } else {
        let r = pick_debtor(bals.drop_last());
        let k = bals.len() - 1;
        if bals[k].1 >= 0 {
            r
        } else if r == -1 {
            k
        } else if bals[k].1 < bals[r].1 || (bals[k].1 == bals[r].1 && bals[k].0 < bals[r].0) {
            k
        } else {
            r
        }
    }
}

/// The snapshot after one matched transfer of `t` between the creditor at
/// `ci` and the debtor at `di`.
pub open spec fn step_snapshot(bals: Seq<(i32, int)>, ci: int, di: int, t: int) -> Seq<(i32, int)> {
    bals.update(ci, (bals[ci].0, bals[ci].1 - t)).update(di, (bals[di].0, bals[di].1 + t))
}

/// The greedy plan: repeatedly match the largest creditor with the largest
/// debtor and move the smaller of the two magnitudes, until one side is
/// empty. `fuel` only bounds the recursion; any fuel at least the number of
/// unsettled users yields the same plan.
pub open spec fn greedy(bals: Seq<(i32, int)>, fuel: nat) -> Seq<(i32, i32, int)>
    decreases fuel,
{
    if fuel == 0 {
        Seq::empty()
    } else {
        let ci = pick_creditor(bals);
        let di = pick_debtor(bals);
        if ci < 0 || di < 0 {
            Seq::empty()
        } else {
            let c = bals[ci].1;
            let d = bals[di].1;
            let t = if c <= -d {
                c
            } else {
                -d
            };
            seq![(bals[di].0, bals[ci].0, t)] + greedy(step_snapshot(bals, ci, di, t), (fuel - 1) as nat)
        }
    }
}

/// The settlement plan of a snapshot: (from, to, amount) triples.
pub open spec fn plan_spec(bals: Seq<(i32, int)>) -> Seq<(i32, i32, int)> {
    greedy(bals, bals.len())
}

/// What one transfer does to the net of user `u`: paying shrinks a debt,
/// being paid shrinks a credit.
pub open spec fn transfer_delta(u: i32, t: (i32, i32, int)) -> int {
    (if t.0 == u {
        t.2
    } else {
        0
    }) - (if t.1 == u {
        t.2
    } else {
        0
    })
}

/// The net of user `u` after applying every transfer of `plan` to the
/// starting net `base`.
pub open spec fn applied_net(u: i32, base: int, plan: Seq<(i32, i32, int)>) -> int
    decreases plan.len(),
{
    if plan.len() == 0 {
        base
    } else {
        applied_net(u, base + transfer_delta(u, plan.first()), plan.drop_first())
    }
}

/// A picked index is in range and carries the promised sign; -1 means no user
/// of that sign remains.
pub proof fn lemma_pick_props(bals: Seq<(i32, int)>)
    ensures
        pick_creditor(bals) >= -1,
        pick_debtor(bals) >= -1,
        pick_creditor(bals) == -1 ==> forall|i: int| 0 <= i < bals.len() ==> (#[trigger] bals[i]).1 <= 0,
        pick_creditor(bals) >= 0 ==> pick_creditor(bals) < bals.len() && bals[pick_creditor(bals)].1 > 0,
        pick_debtor(bals) == -1 ==> forall|i: int| 0 <= i < bals.len() ==> (#[trigger] bals[i]).1 >= 0,
        pick_debtor(bals) >= 0 ==> pick_debtor(bals) < bals.len() && bals[pick_debtor(bals)].1 < 0,
    decreases bals.len(),
{
    if bals.len() > 0 {
        lemma_pick_props(bals.drop_last());
        assert(forall|i: int| 0 <= i < bals.len() - 1 ==> (#[trigger] bals[i]) == bals.drop_last()[i]);
    }
}

/// The picked parties carry the largest remaining magnitude of their side,
/// and among equals the smallest user id.
pub proof fn lemma_pick_maximal(bals: Seq<(i32, int)>)
    ensures
        pick_creditor(bals) >= 0 ==> forall|i: int| 0 <= i < bals.len() && (#[trigger] bals[i]).1
            > 0 ==> bals[pick_creditor(bals)].1 > bals[i].1 || (bals[pick_creditor(bals)].1
            == bals[i].1 && bals[pick_creditor(bals)].0 <= bals[i].0),
        pick_debtor(bals) >= 0 ==> forall|i: int| 0 <= i < bals.len() && (#[trigger] bals[i]).1
            < 0 ==> bals[pick_debtor(bals)].1 < bals[i].1 || (bals[pick_debtor(bals)].1
            == bals[i].1 && bals[pick_debtor(bals)].0 <= bals[i].0),
    decreases bals.len(),
{
    lemma_pick_props(bals);
    if bals.len() > 0 {
        lemma_pick_maximal(bals.drop_last());
        lemma_pick_props(bals.drop_last());
        assert(forall|i: int| 0 <= i < bals.len() - 1 ==> (#[trigger] bals[i]) == bals.drop_last()[i]);
    }
}

/// Replacing one pair changes the number of unsettled users by the activity
/// difference.
pub proof fn lemma_count_active_update(bals: Seq<(i32, int)>, r: int, x: (i32, int))
    requires
        0 <= r < bals.len(),
    ensures
        count_active(bals.update(r, x)) == count_active(bals) - active(bals[r]) + active(x),
    decreases bals.len(),
{
    if r == bals.len() - 1 {
        assert(bals.update(r, x).drop_last() =~= bals.drop_last());
    } else {
        assert(bals.update(r, x).drop_last() =~= bals.drop_last().update(r, x));
        lemma_count_active_update(bals.drop_last(), r, x);
    }
}

/// An unsettled user is counted.
pub proof fn lemma_count_active_at(bals: Seq<(i32, int)>, k: int)
    requires
        0 <= k < bals.len(),
        bals[k].1 != 0,
    ensures
        count_active(bals) >= 1,
    decreases bals.len(),
{
    if k < bals.len() - 1 {
        lemma_count_active_at(bals.drop_last(), k);
    }
}

/// Two unsettled users are counted twice.
pub proof fn lemma_count_active_two(bals: Seq<(i32, int)>, i: int, j: int)
    requires
        0 <= i < bals.len(),
        0 <= j < bals.len(),
        i != j,
        bals[i].1 != 0,
        bals[j].1 != 0,
    ensures
        count_active(bals) >= 2,
    decreases bals.len(),
{
    let k = bals.len() - 1;
    if i < k && j < k {
        lemma_count_active_two(bals.drop_last(), i, j);
    } else if i == k {
        lemma_count_active_at(bals.drop_last(), j);
    } else {
        lemma_count_active_at(bals.drop_last(), i);
    }
}

/// When nobody counts as unsettled, every net is zero.
pub proof fn lemma_count_active_zero(bals: Seq<(i32, int)>)
    requires
        count_active(bals) == 0,
    ensures
        forall|i: int| 0 <= i < bals.len() ==> (#[trigger] bals[i]).1 == 0,
    decreases bals.len(),
{
    if bals.len() > 0 {
        lemma_count_active_zero(bals.drop_last());
        assert(forall|i: int| 0 <= i < bals.len() - 1 ==> (#[trigger] bals[i]) == bals.drop_last()[i]);
    }
}

/// When every net is at most zero, the total is at most any single net.
pub proof fn lemma_sum_all_nonpos(bals: Seq<(i32, int)>, j: int)
    requires
        forall|i: int| 0 <= i < bals.len() ==> (#[trigger] bals[i]).1 <= 0,
        0 <= j < bals.len(),
    ensures
        sum_nets(bals) <= bals[j].1,
    decreases bals.len(),
{
    if j < bals.len() - 1 {
        lemma_sum_all_nonpos(bals.drop_last(), j);
    } else {
        assert(sum_nets(bals.drop_last()) <= 0) by {
            lemma_sum_sign(bals.drop_last());
        }
    }
}

/// When every net is at least zero, the total is at least any single net.
pub proof fn lemma_sum_all_nonneg(bals: Seq<(i32, int)>, j: int)
    requires
        forall|i: int| 0 <= i < bals.len() ==> (#[trigger] bals[i]).1 >= 0,
        0 <= j < bals.len(),
    ensures
        sum_nets(bals) >= bals[j].1,
    decreases bals.len(),
{
    if j < bals.len() - 1 {
        lemma_sum_all_nonneg(bals.drop_last(), j);
    } else {
        assert(sum_nets(bals.drop_last()) >= 0) by {
            lemma_sum_sign(bals.drop_last());
        }
    }
}

/// Nets of one sign sum to that sign.
pub proof fn lemma_sum_sign(bals: Seq<(i32, int)>)
    ensures
        (forall|i: int| 0 <= i < bals.len() ==> (#[trigger] bals[i]).1 <= 0) ==> sum_nets(bals) <= 0,
        (forall|i: int| 0 <= i < bals.len() ==> (#[trigger] bals[i]).1 >= 0) ==> sum_nets(bals) >= 0,
    decreases bals.len(),
{
    if bals.len() > 0 {
        lemma_sum_sign(bals.drop_last());
        assert(forall|i: int| 0 <= i < bals.len() - 1 ==> (#[trigger] bals[i]) == bals.drop_last()[i]);
    }
}

/// In a conserving snapshot with anyone unsettled, a creditor and a debtor
/// both remain.
pub proof fn lemma_picks_exist(bals: Seq<(i32, int)>)
    requires
        sum_nets(bals) == 0,
        count_active(bals) > 0,
    ensures
        pick_creditor(bals) >= 0,
        pick_debtor(bals) >= 0,
{
    lemma_pick_props(bals);
    let k = choose|k: int| 0 <= k < bals.len() && (#[trigger] bals[k]).1 != 0;
    assert(exists|k: int| 0 <= k < bals.len() && (#[trigger] bals[k]).1 != 0) by {
        if forall|i: int| 0 <= i < bals.len() ==> (#[trigger] bals[i]).1 == 0 {
            lemma_count_active_of_zeroes(bals);
        }
    }
    if pick_creditor(bals) == -1 {
        if bals[k].1 > 0 {
        } else {
            lemma_sum_all_nonpos(bals, k);
        }
    }
    if pick_debtor(bals) == -1 {
        if bals[k].1 < 0 {
        } else {
            lemma_sum_all_nonneg(bals, k);
        }
    }
}

/// A snapshot of only settled users counts nobody as unsettled.
pub proof fn lemma_count_active_of_zeroes(bals: Seq<(i32, int)>)
    requires
        forall|i: int| 0 <= i < bals.len() ==> (#[trigger] bals[i]).1 == 0,
    ensures
        count_active(bals) == 0,
    decreases bals.len(),
{
    if bals.len() > 0 {
        assert(forall|i: int| 0 <= i < bals.len() - 1 ==> (#[trigger] bals.drop_last()[i]) == bals[i]);
        lemma_count_active_of_zeroes(bals.drop_last());
    }
}

/// What one greedy step does to the snapshot: the total is kept, users and
/// their order are kept, and one or both matched parties settle.
pub proof fn lemma_step(bals: Seq<(i32, int)>, ci: int, di: int, t: int)
    requires
        0 <= ci < bals.len(),
        0 <= di < bals.len(),
        bals[ci].1 > 0,
        bals[di].1 < 0,
        t == if bals[ci].1 <= -bals[di].1 { bals[ci].1 } else { -bals[di].1 },
    ensures
        ci != di,
        step_snapshot(bals, ci, di, t).len() == bals.len(),
        forall|i: int| 0 <= i < bals.len() ==> (#[trigger] step_snapshot(bals, ci, di, t)[i]).0 == bals[i].0,
        forall|i: int| 0 <= i < bals.len() && i != ci && i != di
            ==> (#[trigger] step_snapshot(bals, ci, di, t)[i]).1 == bals[i].1,
        step_snapshot(bals, ci, di, t)[ci].1 == bals[ci].1 - t,
        step_snapshot(bals, ci, di, t)[di].1 == bals[di].1 + t,
        sum_nets(step_snapshot(bals, ci, di, t)) == sum_nets(bals),
        count_active(step_snapshot(bals, ci, di, t)) == count_active(bals) - 1
            - if bals[ci].1 == -bals[di].1 { 1int } else { 0int },
        distinct_ids(bals) ==> distinct_ids(step_snapshot(bals, ci, di, t)),
        0 < t <= bals[ci].1,
        0 <= bals[ci].1 - t,
        bals[di].1 + t <= 0,
{
    let s1 = bals.update(ci, (bals[ci].0, bals[ci].1 - t));
    let s2 = step_snapshot(bals, ci, di, t);
    crate::balance::lemma_sum_nets_update(bals, ci, (bals[ci].0, bals[ci].1 - t));
    crate::balance::lemma_sum_nets_update(s1, di, (s1[di].0, s1[di].1 + t));
    lemma_count_active_update(bals, ci, (bals[ci].0, bals[ci].1 - t));
    lemma_count_active_update(s1, di, (s1[di].0, s1[di].1 + t));
    assert(s2 =~= s1.update(di, (s1[di].0, s1[di].1 + t)));
}

/// Fuel beyond the number of unsettled users does not change the greedy plan.
pub proof fn lemma_greedy_fuel(bals: Seq<(i32, int)>, f1: nat, f2: nat)
    requires
        f1 >= count_active(bals),
        f2 >= count_active(bals),
    ensures
        greedy(bals, f1) == greedy(bals, f2),
    decreases count_active(bals),
{
    lemma_pick_props(bals);
    let ci = pick_creditor(bals);
    let di = pick_debtor(bals);
    if ci >= 0 && di >= 0 {
        let c = bals[ci].1;
        let d = bals[di].1;
        let t = if c <= -d { c } else { -d };
        lemma_count_active_at(bals, ci);
        lemma_step(bals, ci, di, t);
        lemma_greedy_fuel(step_snapshot(bals, ci, di, t), (f1 - 1) as nat, (f2 - 1) as nat);
    }
}

/// A snapshot never holds more unsettled users than pairs, so its length is
/// always enough fuel for the greedy plan.
pub proof fn lemma_count_active_le_len(bals: Seq<(i32, int)>)
    ensures
        count_active(bals) <= bals.len(),
    decreases bals.len(),
{
    if bals.len() > 0 {
        lemma_count_active_le_len(bals.drop_last());
    }
}

/// Settlement correctness: applying the whole greedy plan to a conserving
/// snapshot with distinct users drives every net to exactly zero.
pub proof fn lemma_greedy_zeroes(bals: Seq<(i32, int)>, fuel: nat)
    requires
        distinct_ids(bals),
        sum_nets(bals) == 0,
        fuel >= count_active(bals),
    ensures
        forall|i: int| 0 <= i < bals.len()
            ==> applied_net((#[trigger] bals[i]).0, bals[i].1, greedy(bals, fuel)) == 0,
    decreases count_active(bals),
{
    lemma_pick_props(bals);
    let ci = pick_creditor(bals);
    let di = pick_debtor(bals);
    if ci < 0 || di < 0 {
        if count_active(bals) > 0 {
            lemma_picks_exist(bals);
        }
        lemma_count_active_zero(bals);
        assert(greedy(bals, fuel) == Seq::<(i32, i32, int)>::empty());
    } else {
        let c = bals[ci].1;
        let d = bals[di].1;
        let t = if c <= -d { c } else { -d };
        let s2 = step_snapshot(bals, ci, di, t);
        let tr = (bals[di].0, bals[ci].0, t);
        lemma_count_active_at(bals, ci);
        lemma_step(bals, ci, di, t);
        lemma_greedy_zeroes(s2, (fuel - 1) as nat);
        let plan = greedy(bals, fuel);
        assert(plan == seq![tr] + greedy(s2, (fuel - 1) as nat));
        assert(plan.first() == tr);
        assert(plan.drop_first() =~= greedy(s2, (fuel - 1) as nat));
        assert forall|i: int| 0 <= i < bals.len()
            implies applied_net((#[trigger] bals[i]).0, bals[i].1, plan) == 0 by {
            let u = bals[i].0;
            assert(u == s2[i].0);
            if i == ci {
                assert(transfer_delta(u, tr) == -t);
            } else if i == di {
                assert(transfer_delta(u, tr) == t);
            } else {
                assert(tr.0 != u && tr.1 != u);
                assert(transfer_delta(u, tr) == 0);
            }
            assert(bals[i].1 + transfer_delta(u, tr) == s2[i].1);
            assert(applied_net(u, s2[i].1, greedy(s2, (fuel - 1) as nat)) == 0);
        }
    }
}

/// Settlement boundedness: a conserving snapshot with `n` unsettled users is
/// settled in at most `n - 1` transfers.
pub proof fn lemma_greedy_bounded(bals: Seq<(i32, int)>, fuel: nat)
    requires
        sum_nets(bals) == 0,
        fuel >= count_active(bals),
    ensures
        greedy(bals, fuel).len() <= if count_active(bals) == 0 {
            0int
        } else {
            count_active(bals) - 1
        },
    decreases count_active(bals),
{
    lemma_pick_props(bals);
    let ci = pick_creditor(bals);
    let di = pick_debtor(bals);
    if ci < 0 || di < 0 {
        if count_active(bals) > 0 {
            lemma_picks_exist(bals);
        }
        assert(greedy(bals, fuel) == Seq::<(i32, i32, int)>::empty());
    } else {
        let c = bals[ci].1;
        let d = bals[di].1;
        let t = if c <= -d { c } else { -d };
        let s2 = step_snapshot(bals, ci, di, t);
        lemma_step(bals, ci, di, t);
        lemma_count_active_two(bals, ci, di);
        lemma_greedy_bounded(s2, (fuel - 1) as nat);
        assert(greedy(bals, fuel).len() == 1 + greedy(s2, (fuel - 1) as nat).len());
    }
}

/// Every transfer of a greedy plan moves a positive amount between two
/// different users, both of whom hold a net in the snapshot.
pub proof fn lemma_greedy_elems(bals: Seq<(i32, int)>, fuel: nat)
    requires
        distinct_ids(bals),
    ensures
        forall|j: int| 0 <= j < greedy(bals, fuel).len() ==> {
            let tr = #[trigger] greedy(bals, fuel)[j];
            tr.2 > 0 && tr.0 != tr.1
                && (exists|i: int| 0 <= i < bals.len() && (#[trigger] bals[i]).0 == tr.0)
                && (exists|i: int| 0 <= i < bals.len() && (#[trigger] bals[i]).0 == tr.1)
        },
    decreases fuel,
{
    lemma_pick_props(bals);
    let ci = pick_creditor(bals);
    let di = pick_debtor(bals);
    if fuel > 0 && ci >= 0 && di >= 0 {
        let c = bals[ci].1;
        let d = bals[di].1;
        let t = if c <= -d { c } else { -d };
        let s2 = step_snapshot(bals, ci, di, t);
        let tr0 = (bals[di].0, bals[ci].0, t);
        lemma_step(bals, ci, di, t);
        lemma_greedy_elems(s2, (fuel - 1) as nat);
        let plan = greedy(bals, fuel);
        let rest = greedy(s2, (fuel - 1) as nat);
        assert(plan == seq![tr0] + rest);
        assert forall|j: int| 0 <= j < plan.len() implies {
            let tr = #[trigger] plan[j];
            tr.2 > 0 && tr.0 != tr.1
                && (exists|i: int| 0 <= i < bals.len() && (#[trigger] bals[i]).0 == tr.0)
                && (exists|i: int| 0 <= i < bals.len() && (#[trigger] bals[i]).0 == tr.1)
        } by {
            if j == 0 {
                assert(plan[0] == tr0);
            } else {
                assert(plan[j] == rest[j - 1]);
                let tr = plan[j];
                let i0 = choose|i: int| 0 <= i < s2.len() && (#[trigger] s2[i]).0 == tr.0;
                assert(bals[i0].0 == tr.0);
                let i1 = choose|i: int| 0 <= i < s2.len() && (#[trigger] s2[i]).0 == tr.1;
                assert(bals[i1].0 == tr.1);
            }
        }
    }
}

/// The total of the nets of a snapshot of machine integers stays within a
/// machine-computable range.
pub proof fn lemma_sum_nets_range(bals: Seq<(i32, int)>)
    requires
        forall|i: int| 0 <= i < bals.len() ==> i64::MIN <= (#[trigger] bals[i]).1 <= i64::MAX,
    ensures
        bals.len() * (i64::MIN as int) <= sum_nets(bals) <= bals.len() * (i64::MAX as int),
    decreases bals.len(),
{
    if bals.len() > 0 {
        assert(forall|i: int| 0 <= i < bals.len() - 1 ==> (#[trigger] bals.drop_last()[i]) == bals[i]);
        lemma_sum_nets_range(bals.drop_last());
        assert((bals.len() - 1) * (i64::MIN as int) + (i64::MIN as int) == bals.len() * (i64::MIN as int))
            by (nonlinear_arith);
        assert((bals.len() - 1) * (i64::MAX as int) + (i64::MAX as int) == bals.len() * (i64::MAX as int))
            by (nonlinear_arith);
    }
}

/// Position of the creditor owed the most, ties broken by ascending user id.
fn find_creditor(w: &Vec<NetBalance>) -> (r: Option<usize>)
    ensures
        match r {
            Some(i) => i < w@.len() && pick_creditor(net_view(w@)) == i as int,
            None => pick_creditor(net_view(w@)) == -1,
        },
{
    let ghost v = net_view(w@);
    let n = w.len();
    let mut best: Option<usize> = None;
    let mut i: usize = 0;
    while i < n
        invariant
            n == w@.len(),
            v == net_view(w@),
            0 <= i <= n,
            match best {
                Some(b) => b < i && pick_creditor(v.take(i as int)) == b as int,
                None => pick_creditor(v.take(i as int)) == -1,
            },
        decreases n - i,
    {
        proof {
            assert(v.take(i as int + 1).drop_last() =~= v.take(i as int));
            assert(v.take(i as int + 1).last() == v[i as int]);
            assert(v[i as int] == (w@[i as int].user_id, w@[i as int].net_amount as int));
        }
        let cand = w[i];
        let take_it: bool = if cand.net_amount <= 0 {
            false
        } else {
            match best {
                None => true,
                Some(b) => {
                    let cur = w[b];
                    proof {
                        assert(v[b as int] == (cur.user_id, cur.net_amount as int));
                        assert(v.take(i as int + 1)[b as int] == v[b as int]);
                    }
                    cand.net_amount > cur.net_amount
                        || (cand.net_amount == cur.net_amount && cand.user_id < cur.user_id)
                },
            }
        };
        if take_it {
            best = Some(i);
        }
        i += 1;
    }
    proof {
        assert(v.take(n as int) =~= v);
    }
    best
}

/// Position of the debtor owing the most, ties broken by ascending user id.
fn find_debtor(w: &Vec<NetBalance>) -> (r: Option<usize>)
    ensures
        match r {
            Some(i) => i < w@.len() && pick_debtor(net_view(w@)) == i as int,
            None => pick_debtor(net_view(w@)) == -1,
        },
{
    let ghost v = net_view(w@);
    let n = w.len();
    let mut best: Option<usize> = None;
    let mut i: usize = 0;
    while i < n
        invariant
            n == w@.len(),
            v == net_view(w@),
            0 <= i <= n,
            match best {
                Some(b) => b < i && pick_debtor(v.take(i as int)) == b as int,
                None => pick_debtor(v.take(i as int)) == -1,
            },
        decreases n - i,
    {
        proof {
            assert(v.take(i as int + 1).drop_last() =~= v.take(i as int));
            assert(v.take(i as int + 1).last() == v[i as int]);
            assert(v[i as int] == (w@[i as int].user_id, w@[i as int].net_amount as int));
        }
        let cand = w[i];
        let take_it: bool = if cand.net_amount >= 0 {
            false
        } else {
            match best {
                None => true,
                Some(b) => {
                    let cur = w[b];
                    proof {
                        assert(v[b as int] == (cur.user_id, cur.net_amount as int));
                        assert(v.take(i as int + 1)[b as int] == v[b as int]);
                    }
                    cand.net_amount < cur.net_amount
                        || (cand.net_amount == cur.net_amount && cand.user_id < cur.user_id)
                },
            }
        };
        if take_it {
            best = Some(i);
        }
        i += 1;
    }
    proof {
        assert(v.take(n as int) =~= v);
    }
    best
}

/// Derives the settle-up plan of a balance snapshot. Succeeds exactly when
/// the nets cancel to zero; a snapshot that does not conserve is corrupted
/// upstream and yields no partial plan. On success the plan is a pure
/// function of the snapshot — two calls on equal snapshots return equal
/// plans — applying it settles every user exactly, it never needs more
/// transfers than unsettled users minus one, and every transfer moves a
/// positive amount between two different users.
pub fn settle_balances(balances: &Vec<NetBalance>) -> (r: Result<
    Vec<SettlementTransfer>,
    BalanceError,
>)
    requires
        distinct_ids(net_view(balances@)),
    ensures
        r is Ok <==> sum_nets(net_view(balances@)) == 0,
        r is Err ==> r->Err_0 == BalanceError::ConservationViolation,
        r is Ok ==> plan_view(r->Ok_0@) == plan_spec(net_view(balances@)),
        r is Ok ==> forall|i: int| 0 <= i < balances@.len() ==> applied_net(
            (#[trigger] balances@[i]).user_id,
            balances@[i].net_amount as int,
            plan_view(r->Ok_0@),
        ) == 0,
        r is Ok ==> r->Ok_0@.len() <= if count_active(net_view(balances@)) == 0 {
            0int
        } else {
            count_active(net_view(balances@)) - 1
        },
        r is Ok ==> forall|j: int| 0 <= j < r->Ok_0@.len() ==> (#[trigger] r->Ok_0@[j]).amount > 0
            && r->Ok_0@[j].from_user != r->Ok_0@[j].to_user,
        r is Ok ==> forall|j: int| 0 <= j < r->Ok_0@.len() ==> (exists|i: int|
            0 <= i < balances@.len() && (#[trigger] balances@[i]).user_id
                == (#[trigger] r->Ok_0@[j]).from_user) && (exists|i: int|
            0 <= i < balances@.len() && (#[trigger] balances@[i]).user_id == r->Ok_0@[j].to_user),
{
    let ghost orig = net_view(balances@);
    let n = balances.len();
    proof {
        assert forall|i: int| 0 <= i < orig.len() implies i64::MIN <= (#[trigger] orig[i]).1
            <= i64::MAX by {
            assert(orig[i] == (balances@[i].user_id, balances@[i].net_amount as int));
        }
    }
    let mut acc: i128 = 0;
    let mut k: usize = 0;
    proof {
        assert(orig.take(0) =~= Seq::<(i32, int)>::empty());
    }
    while k < n
        invariant
            n == balances@.len(),
            orig == net_view(balances@),
            0 <= k <= n,
            acc == sum_nets(orig.take(k as int)),
            forall|i: int| 0 <= i < orig.len() ==> i64::MIN <= (#[trigger] orig[i]).1 <= i64::MAX,
        decreases n - k,
    {
        proof {
            assert(orig.take(k as int + 1).drop_last() =~= orig.take(k as int));
            assert(orig.take(k as int + 1).last() == orig[k as int]);
            assert(orig[k as int] == (balances@[k as int].user_id, balances@[k as int].net_amount as int));
            assert(forall|i: int| 0 <= i < k ==> (#[trigger] orig.take(k as int)[i]) == orig[i]);
            lemma_sum_nets_range(orig.take(k as int));
            assert((k as int) * (i64::MIN as int) >= 0x1_0000_0000_0000_0000 * (i64::MIN as int))
                by (nonlinear_arith)
                requires 0 <= k as int <= 0x1_0000_0000_0000_0000;
            assert((k as int) * (i64::MAX as int) <= 0x1_0000_0000_0000_0000 * (i64::MAX as int))
                by (nonlinear_arith)
                requires 0 <= k as int <= 0x1_0000_0000_0000_0000;
        }
        acc = acc + (balances[k].net_amount as i128);
        k += 1;
    }
    proof {
        assert(orig.take(n as int) =~= orig);
    }
    if acc != 0 {
        return Err(BalanceError::ConservationViolation);
    }
    let mut w: Vec<NetBalance> = Vec::new();
    let mut k: usize = 0;
    while k < n
        invariant
            n == balances@.len(),
            0 <= k <= n,
            w@ == balances@.take(k as int),
        decreases n - k,
    {
        w.push(balances[k]);
        proof {
            assert(w@ =~= balances@.take(k as int + 1));
        }
        k += 1;
    }
    proof {
        assert(balances@.take(n as int) =~= balances@);
        lemma_count_active_le_len(orig);
        lemma_greedy_fuel(orig, orig.len(), count_active(orig));
        assert(plan_view(Seq::<SettlementTransfer>::empty()) =~= Seq::<(i32, i32, int)>::empty());
        assert(Seq::<(i32, i32, int)>::empty() + greedy(orig, count_active(orig))
            =~= greedy(orig, count_active(orig)));
    }
    let mut plan: Vec<SettlementTransfer> = Vec::new();
    loop
        invariant
            distinct_ids(net_view(w@)),
            sum_nets(net_view(w@)) == 0,
            plan_spec(orig) == plan_view(plan@) + greedy(net_view(w@), count_active(net_view(w@))),
        ensures
            pick_creditor(net_view(w@)) == -1 || pick_debtor(net_view(w@)) == -1,
            plan_spec(orig) == plan_view(plan@) + greedy(net_view(w@), count_active(net_view(w@))),
        decreases count_active(net_view(w@)),
    {
        let ghost v = net_view(w@);
        let copt = find_creditor(&w);
        let dopt = find_debtor(&w);
        match (copt, dopt) {
            (Some(ci), Some(di)) => {
                proof {
                    lemma_pick_props(v);
                }
                let cu = w[ci].user_id;
                let c = w[ci].net_amount;
                let du = w[di].user_id;
                let d = w[di].net_amount;
                proof {
                    assert(v[ci as int] == (cu, c as int));
                    assert(v[di as int] == (du, d as int));
                }
                let negd: i128 = -(d as i128);
                let t: i64 = if (c as i128) <= negd {
                    c
                } else {
                    negd as i64
                };
                proof {
                    assert(t as int == if (c as int) <= -(d as int) {
                        c as int
                    } else {
                        -(d as int)
                    });
                    assert(0 < t as int <= c as int);
                    assert(t as int <= -(d as int));
                }
                let ghost pv0 = plan_view(plan@);
                w[ci] = NetBalance { user_id: cu, net_amount: c - t };
                w[di] = NetBalance { user_id: du, net_amount: d + t };
                plan.push(SettlementTransfer { from_user: du, to_user: cu, amount: t });
                proof {
                    let t_i = t as int;
                    let s2 = step_snapshot(v, ci as int, di as int, t_i);
                    lemma_step(v, ci as int, di as int, t_i);
                    assert(net_view(w@) =~= s2);
                    lemma_count_active_at(v, ci as int);
                    assert(greedy(v, count_active(v)) == seq![(du, cu, t_i)]
                        + greedy(s2, (count_active(v) - 1) as nat));
                    lemma_greedy_fuel(s2, (count_active(v) - 1) as nat, count_active(s2));
                    assert(plan_view(plan@) =~= pv0.push((du, cu, t_i)));
                    assert(pv0.push((du, cu, t_i)) + greedy(s2, count_active(s2))
                        =~= pv0 + (seq![(du, cu, t_i)] + greedy(s2, count_active(s2))));
                }
            },
            _ => {
                break;
            },
        }
    }
    proof {
        let v = net_view(w@);
        assert(greedy(v, count_active(v)) =~= Seq::<(i32, i32, int)>::empty());
        assert(plan_view(plan@) =~= plan_view(plan@) + Seq::<(i32, i32, int)>::empty());
        assert(plan_view(plan@) == plan_spec(orig));
        lemma_count_active_le_len(orig);
        lemma_greedy_zeroes(orig, orig.len());
        lemma_greedy_bounded(orig, orig.len());
        lemma_greedy_elems(orig, orig.len());
        assert forall|i: int| 0 <= i < balances@.len() implies applied_net(
            (#[trigger] balances@[i]).user_id,
            balances@[i].net_amount as int,
            plan_view(plan@),
        ) == 0 by {
            assert(orig[i] == (balances@[i].user_id, balances@[i].net_amount as int));
        }
        assert forall|j: int| 0 <= j < plan@.len() implies (#[trigger] plan@[j]).amount > 0
            && plan@[j].from_user != plan@[j].to_user by {
            assert(plan_view(plan@)[j] == (plan@[j].from_user, plan@[j].to_user, plan@[j].amount as int));
        }
        assert forall|j: int| 0 <= j < plan@.len() implies (exists|i: int|
            0 <= i < balances@.len() && (#[trigger] balances@[i]).user_id
                == (#[trigger] plan@[j]).from_user) && (exists|i: int|
            0 <= i < balances@.len() && (#[trigger] balances@[i]).user_id
                == plan@[j].to_user) by {
            assert(plan_view(plan@)[j] == (plan@[j].from_user, plan@[j].to_user, plan@[j].amount as int));
            let tr = plan_view(plan@)[j];
            let i0 = choose|i: int| 0 <= i < orig.len() && (#[trigger] orig[i]).0 == tr.0;
            assert(balances@[i0].user_id == tr.0);
            let i1 = choose|i: int| 0 <= i < orig.len() && (#[trigger] orig[i]).0 == tr.1;
            assert(balances@[i1].user_id == tr.1);
        }
    }
    Ok(plan)
}

/// Computes the settle-up plan of a scope's entries in one call. The nets of
/// any entry sequence conserve, so the plan always exists here.
pub fn settlement_plan(entries: &Vec<LedgerEntry>) -> (plan: Vec<SettlementTransfer>)
    requires
        forall|i: int| 0 <= i < entries@.len() ==> (#[trigger] entries@[i]).resolved()
            && entries@[i].wf(),
        sum_amounts(entries@) <= i64::MAX,
    ensures
        plan_view(plan@) == plan_spec(nets_spec(entries@)),
{
    let balances = compute_net_balances(entries);
    let r = settle_balances(&balances);
    r.unwrap()
}

/// Determinism: the engine is a pure function of its input. Equal entry
/// sequences give equal balance snapshots, and equal snapshots give equal
/// settlement plans.
pub proof fn lemma_engine_deterministic(e1: Seq<LedgerEntry>, e2: Seq<LedgerEntry>)
    requires
        e1 == e2,
    ensures
        nets_spec(e1) == nets_spec(e2),
        plan_spec(nets_spec(e1)) == plan_spec(nets_spec(e2)),
{
}

} // verus!
