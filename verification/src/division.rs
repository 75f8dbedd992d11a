//! Division validation: decides whether a proposed split of an expense total
//! may be persisted, before the ledger accepts it.

use vstd::prelude::*;

use crate::ledger::{tolerance, tolerance_of, DivisionError};

verus! {

/// The users named by a division, in order.
pub open spec fn division_ids(d: Seq<(i32, i64)>) -> Seq<i32> {
    d.map_values(|p: (i32, i64)| p.0)
}

/// Sum of the proposed shares.
pub open spec fn sum_division(d: Seq<(i32, i64)>) -> int
    decreases d.len(),
{
    if d.len() == 0 {
        0
    } else {
        sum_division(d.drop_last()) + d.last().1
    }
}

/// First position whose user already holds an earlier share, or -1.
pub open spec fn first_dup(d: Seq<(i32, i64)>) -> int
    decreases d.len(),
{
    if d.len() == 0 {
        -1
    } else {
        let r = first_dup(d.drop_last());
        if r >= 0 {
            r
        } else if exists|i: int| 0 <= i < d.len() - 1 && (#[trigger] d[i]).0 == d.last().0 {
            d.len() - 1
        } else {
            -1
        }
    }
}

/// First position whose user is outside the scope, or -1.
pub open spec fn first_nonmember(d: Seq<(i32, i64)>, members: Seq<i32>) -> int
    decreases d.len(),
{
    if d.len() == 0 {
        -1
    } else {
        let r = first_nonmember(d.drop_last(), members);
        if r >= 0 {
            r
        } else if !members.contains(d.last().0) {
            d.len() - 1
        } else {
            -1
        }
    }
}

/// Acceptability of a division: every user holds one share, the shares meet
/// the total within tolerance, and every user belongs to the scope.
pub open spec fn division_ok(total: int, d: Seq<(i32, i64)>, members: Seq<i32>) -> bool {
    division_ids(d).no_duplicates() && -tolerance(total) <= sum_division(d) - total <= tolerance(
        total,
    ) && forall|i: int| 0 <= i < d.len() ==> members.contains((#[trigger] d[i]).0)
}

/// What the validator decides: a duplicated user outranks a sum that misses
/// the total, which outranks a user outside the scope; each error carries the
/// user or sums involved.
pub open spec fn validate_spec(total: int, d: Seq<(i32, i64)>, members: Seq<i32>) -> Result<
    (),
    DivisionError,
> {
    if first_dup(d) >= 0 {
        Err(DivisionError::DuplicateParticipant(d[first_dup(d)].0))
    } else if !(-tolerance(total) <= sum_division(d) - total <= tolerance(total)) {
        Err(
            (DivisionError::DivisionMismatch {
                expected: total as i64,
                actual: sum_division(d) as i64,
            }),
        )
    } else if first_nonmember(d, members) >= 0 {
        Err(DivisionError::NotAMember(d[first_nonmember(d, members)].0))
    } else {
        Ok(())
    }
}

/// `first_dup` is -1 exactly on duplicate-free divisions, and otherwise names
/// the first position that repeats an earlier user.
pub proof fn lemma_first_dup_props(d: Seq<(i32, i64)>)
    ensures
        first_dup(d) >= -1,
        first_dup(d) == -1 <==> division_ids(d).no_duplicates(),
        first_dup(d) >= 0 ==> first_dup(d) < d.len() && division_ids(d.take(first_dup(d))).no_duplicates()
            && exists|i: int| 0 <= i < first_dup(d) && (#[trigger] d[i]).0 == d[first_dup(d)].0,
    decreases d.len(),
{
    if d.len() > 0 {
        let prefix = d.drop_last();
        lemma_first_dup_props(prefix);
        assert(forall|i: int| 0 <= i < prefix.len() ==> (#[trigger] prefix[i]) == d[i]);
        assert(forall|i: int| 0 <= i < prefix.len()
            ==> (#[trigger] division_ids(prefix)[i]) == division_ids(d)[i]);
        let r = first_dup(prefix);
        if r >= 0 {
            assert(prefix.take(r) =~= d.take(r));
        } else {
            assert(d.take(d.len() - 1) =~= prefix);
            if exists|i: int| 0 <= i < d.len() - 1 && (#[trigger] d[i]).0 == d.last().0 {
                let i = choose|i: int| 0 <= i < d.len() - 1 && (#[trigger] d[i]).0 == d.last().0;
                assert(division_ids(d)[i] == division_ids(d)[d.len() - 1]);
            } else {
                assert(division_ids(d).no_duplicates()) by {
                    assert forall|i: int, j: int|
                        0 <= i < division_ids(d).len() && 0 <= j < division_ids(d).len() && i != j
                        implies division_ids(d)[i] != division_ids(d)[j] by {
                        if i < d.len() - 1 && j < d.len() - 1 {
                            assert(division_ids(prefix)[i] == division_ids(d)[i]);
                            assert(division_ids(prefix)[j] == division_ids(d)[j]);
                        } else {
                            let k = if i < j { i } else { j };
                            assert(!(d[k].0 == d.last().0));
                        }
                    }
                }
            }
        }
    }
}

/// A repeat found in a prefix settles the whole division's verdict.
pub proof fn lemma_first_dup_extend(d: Seq<(i32, i64)>, k: int)
    requires
        0 <= k <= d.len(),
        first_dup(d.take(k)) >= 0,
    ensures
        first_dup(d) == first_dup(d.take(k)),
    decreases d.len() - k,
{
    if k == d.len() {
        assert(d.take(k) =~= d);
    } else {
        assert(d.take(k + 1).drop_last() =~= d.take(k));
        lemma_first_dup_extend(d, k + 1);
    }
}

/// `first_nonmember` is -1 exactly when every named user belongs to the
/// scope, and otherwise names the first outsider.
pub proof fn lemma_first_nonmember_props(d: Seq<(i32, i64)>, members: Seq<i32>)
    ensures
        first_nonmember(d, members) >= -1,
        first_nonmember(d, members) == -1 <==> forall|i: int| 0 <= i < d.len()
            ==> members.contains((#[trigger] d[i]).0),
        first_nonmember(d, members) >= 0 ==> first_nonmember(d, members) < d.len()
            && !members.contains(d[first_nonmember(d, members)].0)
            && forall|i: int| 0 <= i < first_nonmember(d, members)
                ==> members.contains((#[trigger] d[i]).0),
    decreases d.len(),
{
    if d.len() > 0 {
        let prefix = d.drop_last();
        lemma_first_nonmember_props(prefix, members);
        assert(forall|i: int| 0 <= i < d.len() - 1 ==> (#[trigger] prefix[i]) == d[i]);
        let r = first_nonmember(prefix, members);
        if r >= 0 {
            assert(!members.contains(d[r].0));
            assert forall|i: int| 0 <= i < r implies members.contains((#[trigger] d[i]).0) by {
                assert(prefix[i] == d[i]);
            }
        } else if members.contains(d.last().0) {
            assert forall|i: int| 0 <= i < d.len() implies members.contains((#[trigger] d[i]).0) by {
                if i < d.len() - 1 {
                    assert(prefix[i] == d[i]);
                } else {
                    assert(d[i] == d.last());
                }
            }
        } else {
            assert(first_nonmember(d, members) == d.len() - 1);
            assert(!members.contains(d[d.len() - 1].0));
            assert forall|i: int| 0 <= i < d.len() - 1 implies members.contains(
                (#[trigger] d[i]).0,
            ) by {
                assert(prefix[i] == d[i]);
            }
        }
    }
}

/// An outsider found in a prefix settles the whole division's verdict.
pub proof fn lemma_first_nonmember_extend(d: Seq<(i32, i64)>, members: Seq<i32>, k: int)
    requires
        0 <= k <= d.len(),
        first_nonmember(d.take(k), members) >= 0,
    ensures
        first_nonmember(d, members) == first_nonmember(d.take(k), members),
    decreases d.len() - k,
{
    if k == d.len() {
        assert(d.take(k) =~= d);
    } else {
        assert(d.take(k + 1).drop_last() =~= d.take(k));
        lemma_first_nonmember_extend(d, members, k + 1);
    }
}

/// The sum over a prefix of non-negative shares never exceeds the whole sum.
pub proof fn lemma_sum_division_prefix(d: Seq<(i32, i64)>, k: int)
    requires
        forall|i: int| 0 <= i < d.len() ==> (#[trigger] d[i]).1 >= 0,
        0 <= k <= d.len(),
    ensures
        0 <= sum_division(d.take(k)) <= sum_division(d),
    decreases d.len() - k,
{
    if k == d.len() {
        assert(d.take(k) =~= d);
        lemma_sum_division_nonneg(d);
    } else {
        lemma_sum_division_prefix(d, k + 1);
        assert(d.take(k + 1).drop_last() =~= d.take(k));
        lemma_sum_division_nonneg(d.take(k));
    }
}

/// Non-negative shares sum to a non-negative total.
pub proof fn lemma_sum_division_nonneg(d: Seq<(i32, i64)>)
    requires
        forall|i: int| 0 <= i < d.len() ==> (#[trigger] d[i]).1 >= 0,
    ensures
        sum_division(d) >= 0,
    decreases d.len(),
{
    if d.len() > 0 {
        assert(forall|i: int| 0 <= i < d.len() - 1 ==> (#[trigger] d.drop_last()[i]) == d[i]);
        lemma_sum_division_nonneg(d.drop_last());
    }
}

/// Decides whether a proposal is ready for the validator: a positive total,
/// at least one share, no negative share, and shares that together stay
/// representable. The boundary that receives proposals from unverified data
/// checks with this before validating.
pub fn division_ready(total: i64, division: &Vec<(i32, i64)>) -> (b: bool)
    ensures
        b <==> total > 0 && division@.len() > 0 && (forall|i: int|
            0 <= i < division@.len() ==> (#[trigger] division@[i]).1 >= 0) && sum_division(
            division@,
        ) <= i64::MAX,
{
    if total <= 0 || division.len() == 0 {
        return false;
    }
    let n = division.len();
    let mut sum: i128 = 0;
    let mut k: usize = 0;
    proof {
        assert(division@.take(0) =~= Seq::<(i32, i64)>::empty());
    }
    while k < n
        invariant
            n == division@.len(),
            0 <= k <= n,
            forall|i: int| 0 <= i < k ==> (#[trigger] division@[i]).1 >= 0,
            sum == sum_division(division@.take(k as int)),
            0 <= sum <= (k as int) * (i64::MAX as int),
        decreases n - k,
    {
        proof {
            assert(division@.take(k as int + 1).drop_last() =~= division@.take(k as int));
            assert(division@.take(k as int + 1).last() == division@[k as int]);
        }
        let a = division[k].1;
        if a < 0 {
            return false;
        }
        proof {
            assert((k as int) * (i64::MAX as int) + (i64::MAX as int) == (k as int + 1) * (
            i64::MAX as int)) by (nonlinear_arith);
            assert((k as int + 1) * (i64::MAX as int) <= 0x1_0000_0000_0000_0000 * (
            i64::MAX as int)) by (nonlinear_arith)
                requires 0 <= k as int + 1 <= 0x1_0000_0000_0000_0000;
        }
        sum = sum + (a as i128);
        k += 1;
    }
    proof {
        assert(division@.take(n as int) =~= division@);
    }
    sum <= i64::MAX as i128
}

/// Whether the scope holds user `u`.
fn is_member(members: &Vec<i32>, u: i32) -> (b: bool)
    ensures
        b == members@.contains(u),
{
    let n = members.len();
    let mut i: usize = 0;
    while i < n
        invariant
            n == members@.len(),
            0 <= i <= n,
            forall|k: int| 0 <= k < i ==> members@[k] != u,
        decreases n - i,
    {
        if members[i] == u {
            return true;
        }
        i += 1;
    }
    false
}

/// Validates a proposed division of `total` among the given shares, against
/// the scope's membership. Pure: the caller persists the expense only after
/// `Ok`. A division is accepted exactly when no user is repeated, the shares
/// meet the total within the tolerance of `total`, and every named user
/// belongs to the scope; a single share equal to the whole total is valid.
pub fn validate_division(total: i64, division: &Vec<(i32, i64)>, members: &Vec<i32>) -> (r: Result<
    (),
    DivisionError,
>)
    requires
        total > 0,
        division@.len() > 0,
        forall|i: int| 0 <= i < division@.len() ==> (#[trigger] division@[i]).1 >= 0,
        sum_division(division@) <= i64::MAX,
    ensures
        r == validate_spec(total as int, division@, members@),
        r is Ok <==> division_ok(total as int, division@, members@),
{
    let ghost d = division@;
    let n = division.len();
    let mut j: usize = 1;
    proof {
        lemma_first_dup_props(d.take(1));
    }
    while j < n
        invariant
            n == division@.len(),
            d == division@,
            1 <= j <= n,
            first_dup(d.take(j as int)) == -1,
        decreases n - j,
    {
        let mut i: usize = 0;
        while i < j
            invariant
                n == division@.len(),
                d == division@,
                0 <= i <= j < n,
                forall|k: int| 0 <= k < i ==> (#[trigger] d[k]).0 != d[j as int].0,
                first_dup(d.take(j as int)) == -1,
            decreases j - i,
        {
            if division[i].0 == division[j].0 {
                proof {
                    assert(d.take(j as int + 1).drop_last() =~= d.take(j as int));
                    assert(d.take(j as int + 1).last() == d[j as int]);
                    assert(d.take(j as int + 1)[i as int] == d[i as int]);
                    assert(first_dup(d.take(j as int + 1)) == j as int);
                    lemma_first_dup_extend(d, j as int + 1);
                    lemma_first_dup_props(d);
                }
                return Err(DivisionError::DuplicateParticipant(division[j].0));
            }
            i += 1;
        }
        proof {
            assert(d.take(j as int + 1).drop_last() =~= d.take(j as int));
            assert(d.take(j as int + 1).last() == d[j as int]);
            assert forall|i: int| 0 <= i < j as int
                implies (#[trigger] d.take(j as int + 1)[i]).0 != d[j as int].0 by {
                assert(d.take(j as int + 1)[i] == d[i]);
            }
            assert(first_dup(d.take(j as int + 1)) == -1);
        }
        j += 1;
    }
    proof {
        assert(d.take(n as int) =~= d);
        lemma_first_dup_props(d);
    }
    let mut sum: i64 = 0;
    let mut k: usize = 0;
    proof {
        assert(d.take(0) =~= Seq::<(i32, i64)>::empty());
    }
    while k < n
        invariant
            n == division@.len(),
            d == division@,
            0 <= k <= n,
            sum == sum_division(d.take(k as int)),
            forall|i: int| 0 <= i < d.len() ==> (#[trigger] d[i]).1 >= 0,
            sum_division(d) <= i64::MAX,
        decreases n - k,
    {
        proof {
            assert(d.take(k as int + 1).drop_last() =~= d.take(k as int));
            assert(d.take(k as int + 1).last() == d[k as int]);
            lemma_sum_division_prefix(d, k as int);
            lemma_sum_division_prefix(d, k as int + 1);
        }
        sum = sum + division[k].1;
        k += 1;
    }
    proof {
        assert(d.take(n as int) =~= d);
    }
    let tol = tolerance_of(total);
    proof {
        assert(tol >= 1) by {
            if total >= crate::ledger::MICROS_PER_UNIT {
                assert(total as int / (crate::ledger::MICROS_PER_UNIT as int) >= 1) by (nonlinear_arith)
                    requires total as int >= crate::ledger::MICROS_PER_UNIT as int;
            }
        }
    }
    proof {
        lemma_sum_division_nonneg(d);
    }
    let diff = sum - total;
    if diff > tol || diff < -tol {
        return Err(DivisionError::DivisionMismatch { expected: total, actual: sum });
    }
    let mut j: usize = 0;
    proof {
        assert(d.take(0) =~= Seq::<(i32, i64)>::empty());
    }
    while j < n
        invariant
            n == division@.len(),
            d == division@,
            0 <= j <= n,
            first_nonmember(d.take(j as int), members@) == -1,
            first_dup(d) == -1,
            -tolerance(total as int) <= sum_division(d) - total <= tolerance(total as int),
        decreases n - j,
    {
        proof {
            assert(d.take(j as int + 1).drop_last() =~= d.take(j as int));
            assert(d.take(j as int + 1).last() == d[j as int]);
        }
        if !is_member(members, division[j].0) {
            proof {
                assert(first_nonmember(d.take(j as int + 1), members@) == j as int);
                lemma_first_nonmember_extend(d, members@, j as int + 1);
                lemma_first_dup_props(d);
            }
            return Err(DivisionError::NotAMember(division[j].0));
        }
        j += 1;
    }
    proof {
        assert(d.take(n as int) =~= d);
        lemma_first_nonmember_props(d, members@);
    }
    Ok(())
}

/// Validates a division against the outcome of the membership lookup, which
/// an outside collaborator owns. A failed lookup fails closed: the division
/// is not accepted, and the caller sees a retryable failure distinct from any
/// validation error.
pub fn validate_division_with_membership(
    total: i64,
    division: &Vec<(i32, i64)>,
    membership: Option<&Vec<i32>>,
) -> (r: Result<(), DivisionError>)
    requires
        total > 0,
        division@.len() > 0,
        forall|i: int| 0 <= i < division@.len() ==> (#[trigger] division@[i]).1 >= 0,
        sum_division(division@) <= i64::MAX,
    ensures
        match membership {
            Some(members) => r == validate_spec(total as int, division@, members@),
            None => r == Err::<(), DivisionError>(DivisionError::DependencyUnavailable),
        },
{
    match membership {
        Some(members) => validate_division(total, division, members),
        None => Err(DivisionError::DependencyUnavailable),
    }
}

/// The sum of the shares, as a fold over the share amounts.
proof fn lemma_sum_division_fold(d: Seq<(i32, i64)>)
    ensures
        sum_division(d) == d.fold_left(0int, |acc: int, p: (i32, i64)| acc + p.1),
    decreases d.len(),
{
    if d.len() > 0 {
        lemma_sum_division_fold(d.drop_last());
    }
}

/// Reordering a division reorders, and keeps, the multiset of its users.
proof fn lemma_ids_multiset(l1: Seq<(i32, i64)>, l2: Seq<(i32, i64)>)
    requires
        l1.to_multiset() == l2.to_multiset(),
    ensures
        division_ids(l1).to_multiset() == division_ids(l2).to_multiset(),
    decreases l1.len(),
{
    broadcast use vstd::seq_lib::group_to_multiset_ensures;
    broadcast use vstd::multiset::group_multiset_axioms;

    if l1.len() == 0 {
        assert(l2.to_multiset().len() == 0);
        assert(l2.len() == 0);
        assert(division_ids(l1) =~= division_ids(l2));
    } else {
        let a = l1.last();
        assert(l1[l1.len() - 1] == a);
        assert(l1.contains(a));
        assert(l1.to_multiset().count(a) > 0);
        assert(l2.to_multiset().count(a) > 0);
        assert(l2.contains(a));
        let i = choose|i: int| 0 <= i < l2.len() && l2[i] == a;
        let l1p = l1.drop_last();
        let l2p = l2.remove(i);
        assert(l1p =~= l1.remove(l1.len() - 1));
        assert(l1p.to_multiset() == l1.to_multiset().remove(a));
        assert(l2p.to_multiset() == l2.to_multiset().remove(l2[i]));
        lemma_ids_multiset(l1p, l2p);
        assert(division_ids(l1) =~= division_ids(l1p).push(a.0));
        assert(division_ids(l2p) =~= division_ids(l2).remove(i));
        assert(division_ids(l2).remove(i).to_multiset() == division_ids(l2).to_multiset().remove(
            division_ids(l2)[i],
        ));
        assert(division_ids(l2)[i] == a.0);
        assert(division_ids(l2).to_multiset().count(a.0) > 0) by {
            assert(division_ids(l2).contains(a.0));
        }
        assert(division_ids(l1).to_multiset() =~= division_ids(l2).to_multiset()) by {
            assert forall|b: i32| division_ids(l1).to_multiset().count(b) == division_ids(
                l2,
            ).to_multiset().count(b) by {
                assert(division_ids(l1).to_multiset() == division_ids(l1p).to_multiset().insert(
                    a.0,
                ));
                assert(division_ids(l1p).to_multiset().count(b) == division_ids(
                    l2,
                ).to_multiset().remove(a.0).count(b));
            }
        }
    }
}

/// Order independence of the validator: a division that validates keeps
/// validating after any reordering of its share pairs. Acceptability depends
/// on the set of shares, never on their order.
pub proof fn lemma_validator_order_independent(
    total: int,
    d1: Seq<(i32, i64)>,
    d2: Seq<(i32, i64)>,
    members: Seq<i32>,
)
    requires
        division_ok(total, d1, members),
        d2.to_multiset() == d1.to_multiset(),
    ensures
        division_ok(total, d2, members),
        validate_spec(total, d2, members) is Ok,
{
    broadcast use vstd::seq_lib::group_to_multiset_ensures;

    let f = |acc: int, p: (i32, i64)| acc + p.1;
    assert(sum_division(d2) == sum_division(d1)) by {
        lemma_sum_division_fold(d1);
        lemma_sum_division_fold(d2);
        assert(vstd::seq_lib::commutative_foldl(f)) by {
            assert(forall|x: (i32, i64), y: (i32, i64), v: int| #[trigger] f(f(v, x), y) == f(
                f(v, y),
                x,
            ));
        }
        vstd::seq_lib::lemma_fold_left_permutation(d1, d2, f, 0int);
    }
    assert(division_ids(d2).no_duplicates()) by {
        lemma_ids_multiset(d1, d2);
        division_ids(d1).lemma_multiset_has_no_duplicates();
        division_ids(d2).lemma_multiset_has_no_duplicates_conv();
    }
    assert forall|i: int| 0 <= i < d2.len() implies members.contains((#[trigger] d2[i]).0) by {
        assert(d2.contains(d2[i]));
        assert(d2.to_multiset().count(d2[i]) > 0);
        assert(d1.contains(d2[i]));
        let j = choose|j: int| 0 <= j < d1.len() && d1[j] == d2[i];
        assert(members.contains(d1[j].0));
    }
    lemma_first_dup_props(d2);
    lemma_first_nonmember_props(d2, members);
}

} // verus!
