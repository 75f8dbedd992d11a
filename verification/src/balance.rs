//! Net-balance computation: reduces the participation records of a scope to
//! one signed net amount per user, in a single pass.

use vstd::prelude::*;

use crate::ledger::{
    appears, contribution, distinct_ids, net_of, net_view, sum_amounts, sum_nets, LedgerEntry,
    NetBalance,
};

verus! {

/// First index at which the snapshot holds user `u`, or -1.
pub open spec fn find_user(bals: Seq<(i32, int)>, u: i32) -> int
    decreases bals.len(),
{
    if bals.len() == 0 {
        -1
    } else if bals[0].0 == u {
        0
    } else {
        let r = find_user(bals.drop_first(), u);
        if r == -1 {
            -1
        } else {
            r + 1
        }
    }
}

/// Whether the snapshot holds a net for user `u`.
pub open spec fn has_user(bals: Seq<(i32, int)>, u: i32) -> bool {
    find_user(bals, u) >= 0
}

/// The net the snapshot holds for user `u`, zero while absent.
pub open spec fn net_in(bals: Seq<(i32, int)>, u: i32) -> int {
    if find_user(bals, u) >= 0 {
        bals[find_user(bals, u)].1
    } else {
        0
    }
}

/// Adds `d` to the accumulator of user `u`, appending the user on first
/// appearance.
pub open spec fn add_signed(bals: Seq<(i32, int)>, u: i32, d: int) -> Seq<(i32, int)> {
    let r = find_user(bals, u);
    if r >= 0 {
        bals.update(r, (u, bals[r].1 + d))
    } else {
        bals.push((u, d))
    }
}

/// Folds one entry into the accumulators: the payer is credited the share,
/// the participant debited.
pub open spec fn apply_entry(bals: Seq<(i32, int)>, e: LedgerEntry) -> Seq<(i32, int)> {
    add_signed(add_signed(bals, e.payer_id, e.amount()), e.participant_id, -e.amount())
}

/// The balance snapshot of a sequence of entries, users ordered by first
/// appearance.
pub open spec fn nets_spec(entries: Seq<LedgerEntry>) -> Seq<(i32, int)>
    decreases entries.len(),
{
    if entries.len() == 0 {
        Seq::empty()
    } else {
        apply_entry(nets_spec(entries.drop_last()), entries.last())
    }
}

/// `find_user` names the first index holding `u`, and -1 means `u` is absent.
pub proof fn lemma_find_user(bals: Seq<(i32, int)>, u: i32)
    ensures
        find_user(bals, u) >= -1,
        find_user(bals, u) == -1 ==> forall|i: int| 0 <= i < bals.len() ==> (#[trigger] bals[i]).0 != u,
        find_user(bals, u) != -1 ==> 0 <= find_user(bals, u) < bals.len()
            && bals[find_user(bals, u)].0 == u
            && forall|i: int| 0 <= i < find_user(bals, u) ==> (#[trigger] bals[i]).0 != u,
    decreases bals.len(),
{
    if bals.len() > 0 && bals[0].0 != u {
        let rest = bals.drop_first();
        lemma_find_user(rest, u);
        let r = find_user(rest, u);
        if r == -1 {
            assert forall|i: int| 0 <= i < bals.len() implies (#[trigger] bals[i]).0 != u by {
                if i > 0 {
                    assert(rest[i - 1] == bals[i]);
                }
            }
        } else {
            assert(bals[r + 1] == rest[r]);
            assert forall|i: int| 0 <= i < r + 1 implies (#[trigger] bals[i]).0 != u by {
                if i > 0 {
                    assert(rest[i - 1] == bals[i]);
                }
            }
        }
    }
}

/// In a snapshot with distinct users, the index of any pair's user is that
/// pair's position.
pub proof fn lemma_find_in_distinct(bals: Seq<(i32, int)>, i: int)
    requires
        distinct_ids(bals),
        0 <= i < bals.len(),
    ensures
        find_user(bals, bals[i].0) == i,
{
    lemma_find_user(bals, bals[i].0);
}

/// Updating a pair in place, keeping its user, leaves every lookup position
/// unchanged.
pub proof fn lemma_find_user_update(bals: Seq<(i32, int)>, r: int, x: (i32, int), u: i32)
    requires
        0 <= r < bals.len(),
        bals[r].0 == x.0,
    ensures
        find_user(bals.update(r, x), u) == find_user(bals, u),
    decreases bals.len(),
{
    if r == 0 {
        assert(bals.update(r, x)[0] == x);
        assert(bals.update(r, x).drop_first() =~= bals.drop_first());
    } else {
        assert(bals.update(r, x)[0] == bals[0]);
        if bals[0].0 != u {
            assert(bals.update(r, x).drop_first() =~= bals.drop_first().update(r - 1, x));
            lemma_find_user_update(bals.drop_first(), r - 1, x, u);
        }
    }
}

/// Appending a pair moves no earlier lookup and makes only its own user
/// newly present.
pub proof fn lemma_find_user_push(bals: Seq<(i32, int)>, x: (i32, int), u: i32)
    ensures
        find_user(bals, u) >= 0 ==> find_user(bals.push(x), u) == find_user(bals, u),
        find_user(bals, u) == -1 && x.0 == u ==> find_user(bals.push(x), u) == bals.len(),
        find_user(bals, u) == -1 && x.0 != u ==> find_user(bals.push(x), u) == -1,
    decreases bals.len(),
{
    lemma_find_user(bals, u);
    if bals.len() == 0 {
        assert(bals.push(x).len() == 1);
        assert(bals.push(x)[0] == x);
        assert(bals.push(x).drop_first() =~= Seq::<(i32, int)>::empty());
        assert(find_user(Seq::<(i32, int)>::empty(), u) == -1);
    } else {
        assert(bals.push(x)[0] == bals[0]);
        if bals[0].0 != u {
            assert(bals.push(x).drop_first() =~= bals.drop_first().push(x));
            lemma_find_user_push(bals.drop_first(), x, u);
            lemma_find_user(bals.drop_first(), u);
        }
    }
}

/// Replacing one pair changes the total of the nets by the difference.
pub proof fn lemma_sum_nets_update(bals: Seq<(i32, int)>, r: int, x: (i32, int))
    requires
        0 <= r < bals.len(),
    ensures
        sum_nets(bals.update(r, x)) == sum_nets(bals) - bals[r].1 + x.1,
    decreases bals.len(),
{
    if r == bals.len() - 1 {
        assert(bals.update(r, x).drop_last() =~= bals.drop_last());
    } else {
        assert(bals.update(r, x).drop_last() =~= bals.drop_last().update(r, x));
        lemma_sum_nets_update(bals.drop_last(), r, x);
    }
}

/// What `add_signed` does: user `u` gains `d`, everyone else keeps their net,
/// the users stay distinct, and the total of the nets grows by `d`.
pub proof fn lemma_add_signed(bals: Seq<(i32, int)>, u: i32, d: int)
    requires
        distinct_ids(bals),
    ensures
        distinct_ids(add_signed(bals, u, d)),
        has_user(add_signed(bals, u, d), u),
        net_in(add_signed(bals, u, d), u) == net_in(bals, u) + d,
        forall|v: i32| v != u ==> #[trigger] has_user(add_signed(bals, u, d), v) == has_user(bals, v),
        forall|v: i32| v != u ==> #[trigger] net_in(add_signed(bals, u, d), v) == net_in(bals, v),
        sum_nets(add_signed(bals, u, d)) == sum_nets(bals) + d,
        add_signed(bals, u, d).len() == if has_user(bals, u) { bals.len() } else { bals.len() + 1 },
{
    let r = find_user(bals, u);
    lemma_find_user(bals, u);
    if r >= 0 {
        let res = bals.update(r, (u, bals[r].1 + d));
        lemma_sum_nets_update(bals, r, (u, bals[r].1 + d));
        assert forall|v: i32| find_user(res, v) == find_user(bals, v) by {
            lemma_find_user_update(bals, r, (u, bals[r].1 + d), v);
        }
        assert forall|v: i32| v != u implies #[trigger] net_in(res, v) == net_in(bals, v) by {
            lemma_find_user(bals, v);
            if find_user(bals, v) >= 0 {
                assert(res[find_user(bals, v)] == bals[find_user(bals, v)]);
            }
        }
        assert(distinct_ids(res)) by {
            assert(forall|i: int| 0 <= i < bals.len() && i != r ==> (#[trigger] res[i]) == bals[i]);
        }
    } else {
        let res = bals.push((u, d));
        assert(res.drop_last() =~= bals);
        assert(sum_nets(res) == sum_nets(bals) + d);
        assert forall|v: i32| v != u implies find_user(res, v) == find_user(bals, v) by {
            lemma_find_user(bals, v);
            lemma_find_user_push(bals, (u, d), v);
        }
        assert forall|v: i32| v != u implies #[trigger] net_in(res, v) == net_in(bals, v) by {
            lemma_find_user(bals, v);
            if find_user(bals, v) >= 0 {
                assert(res[find_user(bals, v)] == bals[find_user(bals, v)]);
            }
        }
        lemma_find_user_push(bals, (u, d), u);
        assert(res[bals.len() as int] == (u, d));
        assert(distinct_ids(res)) by {
            lemma_find_user(bals, u);
            assert(forall|i: int| 0 <= i < bals.len() ==> (#[trigger] res[i]) == bals[i]);
        }
    }
}

/// A user's net never exceeds, in magnitude, the total of the shares.
pub proof fn lemma_net_of_bound(entries: Seq<LedgerEntry>, u: i32)
    requires
        forall|i: int| 0 <= i < entries.len() ==> (#[trigger] entries[i]).wf(),
    ensures
        -sum_amounts(entries) <= net_of(entries, u) <= sum_amounts(entries),
        sum_amounts(entries) >= 0,
    decreases entries.len(),
{
    if entries.len() > 0 {
        lemma_net_of_bound(entries.drop_last(), u);
    }
}

/// The total of the shares over a prefix never exceeds the total over the
/// whole sequence.
pub proof fn lemma_sum_amounts_prefix(entries: Seq<LedgerEntry>, k: int)
    requires
        forall|i: int| 0 <= i < entries.len() ==> (#[trigger] entries[i]).wf(),
        0 <= k <= entries.len(),
    ensures
        0 <= sum_amounts(entries.take(k)) <= sum_amounts(entries),
    decreases entries.len() - k,
{
    if k == entries.len() {
        assert(entries.take(k) =~= entries);
        lemma_net_of_bound(entries, 0);
    } else {
        lemma_sum_amounts_prefix(entries, k + 1);
        assert(entries.take(k + 1).drop_last() =~= entries.take(k));
        assert(sum_amounts(entries.take(k + 1)) == sum_amounts(entries.take(k)) + entries[k].amount());
        lemma_net_of_bound(entries.take(k), 0);
    }
}

/// The balance snapshot of any entry sequence holds distinct users, carries
/// exactly the net each user accumulated, holds exactly the users that take
/// part, and its nets cancel to zero: money only moves between users.
pub proof fn lemma_nets_spec(entries: Seq<LedgerEntry>)
    ensures
        distinct_ids(nets_spec(entries)),
        sum_nets(nets_spec(entries)) == 0,
        forall|u: i32| #[trigger] net_in(nets_spec(entries), u) == net_of(entries, u),
        forall|u: i32| #[trigger] has_user(nets_spec(entries), u) <==> appears(entries, u),
    decreases entries.len(),
{
    if entries.len() == 0 {
        assert forall|u: i32| #[trigger] has_user(nets_spec(entries), u) <==> appears(entries, u) by {
            lemma_find_user(nets_spec(entries), u);
        }
    } else {
        let prefix = entries.drop_last();
        let e = entries.last();
        lemma_nets_spec(prefix);
        let mid = add_signed(nets_spec(prefix), e.payer_id, e.amount());
        lemma_add_signed(nets_spec(prefix), e.payer_id, e.amount());
        lemma_add_signed(mid, e.participant_id, -e.amount());
        assert forall|u: i32| #[trigger] net_in(nets_spec(entries), u) == net_of(entries, u) by {
            assert(net_of(entries, u) == net_of(prefix, u) + contribution(e, u));
        }
        assert forall|u: i32| #[trigger] has_user(nets_spec(entries), u) <==> appears(entries, u) by {
            if u == e.payer_id || u == e.participant_id {
                assert(entries[entries.len() - 1] == e);
            }
            if appears(prefix, u) {
                let i = choose|i: int| 0 <= i < prefix.len()
                    && ((#[trigger] prefix[i]).payer_id == u || prefix[i].participant_id == u);
                assert(entries[i] == prefix[i]);
            }
            if appears(entries, u) && u != e.payer_id && u != e.participant_id {
                let i = choose|i: int| 0 <= i < entries.len()
                    && ((#[trigger] entries[i]).payer_id == u || entries[i].participant_id == u);
                assert(prefix[i] == entries[i]);
            }
        }
    }
}

/// Position of user `u` in the balance vector, if present.
fn find_index(bals: &Vec<NetBalance>, u: i32) -> (r: Option<usize>)
    ensures
        match r {
            Some(i) => i < bals@.len() && find_user(net_view(bals@), u) == i as int,
            None => find_user(net_view(bals@), u) == -1,
        },
{
    let ghost v = net_view(bals@);
    let n = bals.len();
    let mut i: usize = 0;
    while i < n
        invariant
            n == bals@.len(),
            v == net_view(bals@),
            0 <= i <= n,
            forall|j: int| 0 <= j < i ==> (#[trigger] v[j]).0 != u,
        decreases n - i,
    {
        if bals[i].user_id == u {
            proof {
                lemma_find_user(v, u);
                assert(v[i as int].0 == u);
            }
            return Some(i);
        }
        i += 1;
    }
    proof {
        lemma_find_user(v, u);
        if find_user(v, u) >= 0 {
            assert(v[find_user(v, u)].0 == u);
        }
    }
    None
}

/// Folds `d` into the accumulator of user `u`, appending the user on first
/// appearance.
fn apply_signed(bals: &mut Vec<NetBalance>, u: i32, d: i64)
    requires
        find_user(net_view(old(bals)@), u) >= 0 ==> i64::MIN
            <= net_in(net_view(old(bals)@), u) + d <= i64::MAX,
    ensures
        net_view(final(bals)@) == add_signed(net_view(old(bals)@), u, d as int),
{
    let ghost v0 = net_view(old(bals)@);
    match find_index(bals, u) {
        Some(i) => {
            let cur = bals[i].net_amount;
            proof {
                assert(v0[i as int] == (u, cur as int)) by {
                    lemma_find_user(v0, u);
                }
            }
            bals[i] = NetBalance { user_id: u, net_amount: cur + d };
            proof {
                assert(net_view(bals@) =~= v0.update(i as int, (u, cur + d)));
            }
        },
        None => {
            bals.push(NetBalance { user_id: u, net_amount: d });
            proof {
                assert(net_view(bals@) =~= v0.push((u, d as int)));
            }
        },
    }
}

/// Decides whether a batch of entries is ready for the balance engine: every
/// share assigned and non-negative, and the shares together representable.
/// The boundary that loads entries from unverified data checks with this
/// before asking for balances.
pub fn entries_ready(entries: &Vec<LedgerEntry>) -> (b: bool)
    ensures
        b <==> (forall|i: int| 0 <= i < entries@.len() ==> (#[trigger] entries@[i]).resolved()
            && entries@[i].wf()) && sum_amounts(entries@) <= i64::MAX,
{
    let n = entries.len();
    let mut sum: i128 = 0;
    let mut k: usize = 0;
    proof {
        assert(entries@.take(0) =~= Seq::<LedgerEntry>::empty());
    }
    while k < n
        invariant
            n == entries@.len(),
            0 <= k <= n,
            forall|i: int| 0 <= i < k ==> (#[trigger] entries@[i]).resolved() && entries@[i].wf(),
            sum == sum_amounts(entries@.take(k as int)),
            0 <= sum <= (k as int) * (i64::MAX as int),
        decreases n - k,
    {
        proof {
            assert(entries@.take(k as int + 1).drop_last() =~= entries@.take(k as int));
            assert(entries@.take(k as int + 1).last() == entries@[k as int]);
        }
        let a = match entries[k].amount_due {
            Some(a) => a,
            None => {
                return false;
            },
        };
        if a < 0 {
            return false;
        }
        proof {
            assert((k as int) * (i64::MAX as int) + (i64::MAX as int) == (k as int + 1) * (
            i64::MAX as int)) by (nonlinear_arith);
            assert((k as int + 1) * (i64::MAX as int) <= 0x1_0000_0000_0000_0000 * (
            i64::MAX as int)) by (nonlinear_arith)
                requires 0 <= k as int + 1 <= 0x1_0000_0000_0000_0000;
        }
        sum = sum + (a as i128);
        k += 1;
    }
    proof {
        assert(entries@.take(n as int) =~= entries@);
    }
    sum <= i64::MAX as i128
}

/// Reduces the entries of a scope to one net balance per involved user, in a
/// single pass and independent of entry order. Users appear in order of first
/// appearance; a scope with no entries yields an empty snapshot. The nets of
/// the result always cancel to zero: the conservation law of a closed scope.
pub fn compute_net_balances(entries: &Vec<LedgerEntry>) -> (balances: Vec<NetBalance>)
    requires
        forall|i: int| 0 <= i < entries@.len() ==> (#[trigger] entries@[i]).resolved()
            && entries@[i].wf(),
        sum_amounts(entries@) <= i64::MAX,
    ensures
        net_view(balances@) == nets_spec(entries@),
        sum_nets(net_view(balances@)) == 0,
        distinct_ids(net_view(balances@)),
        forall|i: int| 0 <= i < balances@.len() ==> (#[trigger] balances@[i]).net_amount
            == net_of(entries@, balances@[i].user_id),
        forall|u: i32| appears(entries@, u) <==> exists|i: int| 0 <= i < balances@.len()
            && (#[trigger] balances@[i]).user_id == u,
{
    let n = entries.len();
    let mut balances: Vec<NetBalance> = Vec::new();
    let mut k: usize = 0;
    proof {
        assert(entries@.take(0) =~= Seq::<LedgerEntry>::empty());
    }
    while k < n
        invariant
            n == entries@.len(),
            0 <= k <= n,
            forall|i: int| 0 <= i < entries@.len() ==> (#[trigger] entries@[i]).resolved()
                && entries@[i].wf(),
            sum_amounts(entries@) <= i64::MAX,
            net_view(balances@) == nets_spec(entries@.take(k as int)),
        decreases n - k,
    {
        let ghost prefix = entries@.take(k as int);
        let ghost v0 = net_view(balances@);
        let e = entries[k];
        let a = e.amount_due.unwrap();
        proof {
            assert(forall|i: int| 0 <= i < prefix.len() ==> (#[trigger] prefix[i]).wf());
            lemma_nets_spec(prefix);
            lemma_sum_amounts_prefix(entries@, k as int);
            lemma_sum_amounts_prefix(entries@, k as int + 1);
            assert(entries@.take(k as int + 1).drop_last() =~= prefix);
            assert(sum_amounts(entries@.take(k as int + 1)) == sum_amounts(prefix) + e.amount());
            lemma_net_of_bound(prefix, e.payer_id);
            lemma_net_of_bound(prefix, e.participant_id);
            lemma_add_signed(v0, e.payer_id, e.amount());
        }
        apply_signed(&mut balances, e.payer_id, a);
        let ghost v1 = net_view(balances@);
        proof {
            assert(net_in(v1, e.participant_id) == net_of(prefix, e.participant_id)
                + if e.payer_id == e.participant_id { e.amount() } else { 0 });
        }
        apply_signed(&mut balances, e.participant_id, -a);
        proof {
            assert(net_view(balances@) == apply_entry(nets_spec(prefix), entries@[k as int]));
            assert(net_view(balances@) =~= nets_spec(entries@.take(k as int + 1)));
        }
        k += 1;
    }
    proof {
        assert(entries@.take(n as int) =~= entries@);
        lemma_nets_spec(entries@);
        let ns = nets_spec(entries@);
        assert forall|i: int| 0 <= i < balances@.len() implies (#[trigger] balances@[i]).net_amount
            == net_of(entries@, balances@[i].user_id) by {
            let u = balances@[i].user_id;
            assert(net_view(balances@)[i] == (u, balances@[i].net_amount as int));
            lemma_find_in_distinct(ns, i);
            assert(net_in(ns, u) == ns[i].1);
            assert(net_in(ns, u) == net_of(entries@, u));
        }
        assert forall|u: i32| appears(entries@, u) <==> exists|i: int| 0 <= i < balances@.len()
            && (#[trigger] balances@[i]).user_id == u by {
            lemma_find_user(ns, u);
            if has_user(ns, u) {
                let r = find_user(ns, u);
                assert(net_view(balances@)[r].0 == balances@[r].user_id);
            }
            if exists|i: int| 0 <= i < balances@.len() && (#[trigger] balances@[i]).user_id == u {
                let i = choose|i: int| 0 <= i < balances@.len()
                    && (#[trigger] balances@[i]).user_id == u;
                assert(ns[i].0 == u);
                lemma_find_in_distinct(ns, i);
            }
        }
    }
    balances
}

} // verus!
