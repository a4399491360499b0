//! The optimized packing pipeline: build the candidate sets, reindex their
//! voters into a dense universe, state the Weighted Maximum Coverage problem,
//! and score selections (the solver's and the baseline) by deduplicated
//! reward.

use vstd::prelude::*;

use crate::candidates::build_candidate_sets;
use crate::candidates::fallback_listed;
use crate::candidates::group_count_matches;
use crate::candidates::has_root;
use crate::candidates::root_set;
use crate::candidates::target_candidates_listed;
use crate::candidates::valid_candidate;
use crate::instance::lists_model;
use crate::instance::EpochAttesterID;
use crate::instance::Instance;
use crate::instance::RewardTable;
use crate::keys::index_of;
use crate::keys::lemma_finite_set_listable;
use crate::keys::lemma_strictly_sorted_no_duplicates;
use crate::keys::lemma_strictly_sorted_unique;
use crate::keys::sort_dedup;
use crate::keys::strictly_sorted;
use crate::w_max_coverage::WeightedMaximumCoverage;

verus! {

broadcast use vstd::set::group_set_axioms;

/// The cap on how many candidate sets the coverage solver may select.
pub const MAX_SELECTED_SETS: usize = 128;

/// All voter keys appearing in any of the lists.
pub open spec fn all_keys_set(lists: Seq<Seq<EpochAttesterID>>) -> Set<EpochAttesterID> {
    Set::new(|k: EpochAttesterID| exists|i: int| 0 <= i < lists.len() && lists[i].contains(k))
}

/// The sum of the table rewards of the listed keys, in order.
pub open spec fn sum_rewards_seq(s: Seq<EpochAttesterID>, t: RewardTable) -> int
    decreases s.len(),
{
    if s.len() == 0 {
        0
    } else {
        sum_rewards_seq(s.drop_last(), t) + t.spec_reward(s.last()) as int
    }
}

/// The unique strictly sorted listing of a finite voter set.
pub open spec fn sorted_keys_of(s: Set<EpochAttesterID>) -> Seq<EpochAttesterID> {
    choose|q: Seq<EpochAttesterID>|
        strictly_sorted(q) && (forall|k: EpochAttesterID| q.contains(k) == s.contains(k))
}

/// The deduplicated total reward of a set of voters: each voter is rewarded
/// once, however many lists it appears in.
pub open spec fn spec_total_reward(s: Set<EpochAttesterID>, t: RewardTable) -> int {
    sum_rewards_seq(sorted_keys_of(s), t)
}

proof fn lemma_lists_model_index(ls: Seq<Vec<EpochAttesterID>>)
    ensures
        lists_model(ls).len() == ls.len(),
        forall|i: int| 0 <= i < ls.len() ==> lists_model(ls)[i] == #[trigger] ls[i]@,
    decreases ls.len(),
{
    if ls.len() > 0 {
        lemma_lists_model_index(ls.drop_last());
        assert forall|i: int| 0 <= i < ls.len() implies lists_model(ls)[i] == #[trigger] ls[i]@ by {
            if i < ls.len() - 1 {
                assert(ls.drop_last()[i] == ls[i]);
            } else {
                assert(lists_model(ls).last() == ls.last()@);
            }
        }
    }
}

/// Every voter key appearing in any of the lists, with repetitions.
fn collect_voters(lists: &Vec<Vec<EpochAttesterID>>) -> (r: Vec<EpochAttesterID>)
    ensures
        forall|k: EpochAttesterID|
            r@.contains(k) <==> all_keys_set(lists_model(lists@)).contains(k),
{
    proof {
        lemma_lists_model_index(lists@);
    }
    let mut r: Vec<EpochAttesterID> = Vec::new();
    let n = lists.len();
    for i in 0..n
        invariant
            n == lists@.len(),
            lists_model(lists@).len() == lists@.len(),
            forall|m: int| 0 <= m < lists@.len() ==> lists_model(lists@)[m] == #[trigger] lists@[m]@,
            forall|k: EpochAttesterID|
                r@.contains(k) <==> exists|m: int| 0 <= m < i && lists@[m]@.contains(k),
    {
        let row = &lists[i];
        let m = row.len();
        for j in 0..m
            invariant
                m == row@.len(),
                i < n,
                n == lists@.len(),
                row@ == lists@[i as int]@,
                forall|k: EpochAttesterID|
                    r@.contains(k) <==> ((exists|q: int| 0 <= q < i && lists@[q]@.contains(k))
                        || (exists|b: int| 0 <= b < j && row@[b] == k)),
        {
            let ghost r_old = r@;
            r.push(row[j]);
            proof {
                assert(r@[r@.len() - 1] == row@[j as int]);
                assert forall|k: EpochAttesterID|
                    r@.contains(k) <==> ((exists|q: int| 0 <= q < i && lists@[q]@.contains(k))
                        || (exists|b: int| 0 <= b < j + 1 && row@[b] == k)) by {
                    if r@.contains(k) {
                        let w = choose|w: int| 0 <= w < r@.len() && r@[w] == k;
                        if w < r@.len() - 1 {
                            assert(r_old[w] == k);
                            assert(r_old.contains(k));
                        } else {
                            assert(row@[j as int] == k);
                        }
                    }
                    if (exists|q: int| 0 <= q < i && lists@[q]@.contains(k)) {
                        assert(r_old.contains(k));
                        let w = choose|w: int| 0 <= w < r_old.len() && r_old[w] == k;
                        assert(r@[w] == k);
                    }
                    if (exists|b: int| 0 <= b < j + 1 && row@[b] == k) {
                        let b = choose|b: int| 0 <= b < j + 1 && row@[b] == k;
                        if b < j {
                            assert(r_old.contains(k));
                            let w = choose|w: int| 0 <= w < r_old.len() && r_old[w] == k;
                            assert(r@[w] == k);
                        } else {
                            assert(r@[r@.len() - 1] == k);
                        }
                    }
                }
            }
        }
        proof {
            assert forall|k: EpochAttesterID|
                r@.contains(k) <==> exists|q: int| 0 <= q < i + 1 && lists@[q]@.contains(k) by {
                if r@.contains(k) {
                    if (exists|b: int| 0 <= b < m && row@[b] == k) {
                        assert(lists@[i as int]@.contains(k));
                    }
                }
                if exists|q: int| 0 <= q < i + 1 && lists@[q]@.contains(k) {
                    let q = choose|q: int| 0 <= q < i + 1 && lists@[q]@.contains(k);
                    if q == i {
                        let b = choose|b: int| 0 <= b < row@.len() && row@[b] == k;
                        assert(0 <= b < m && row@[b] == k);
                    }
                }
            }
        }
    }
    proof {
        assert forall|k: EpochAttesterID|
            r@.contains(k) <==> all_keys_set(lists_model(lists@)).contains(k) by {
            if all_keys_set(lists_model(lists@)).contains(k) {
                let m = choose|m: int|
                    0 <= m < lists_model(lists@).len() && lists_model(lists@)[m].contains(k);
                assert(lists@[m]@.contains(k));
            }
        }
    }
    r
}

/// The deduplicated total reward of the voters appearing in the given lists:
/// each distinct voter contributes its table reward exactly once; voters
/// absent from the table contribute 0.
pub fn calculate_reward(attesters: &Vec<Vec<EpochAttesterID>>, weights: &RewardTable) -> (r: u128)
    requires
        weights.wf(),
    ensures
        r == spec_total_reward(all_keys_set(lists_model(attesters@)), *weights),
{
    let all = collect_voters(attesters);
    let sorted = sort_dedup(&all);
    let mut acc: u128 = 0;
    let n = sorted.len();
    for i in 0..n
        invariant
            n == sorted@.len(),
            weights.wf(),
            acc == sum_rewards_seq(sorted@.subrange(0, i as int), *weights),
            acc <= i as int * (u64::MAX as int),
    {
        let ghost pre = sorted@.subrange(0, i as int);
        let ghost cur = sorted@.subrange(0, i + 1 as int);
        proof {
            assert(cur.drop_last() =~= pre);
            assert(cur.last() == sorted@[i as int]);
            assert((i + 1) as int * (u64::MAX as int) == i as int * (u64::MAX as int) + (
            u64::MAX as int)) by (nonlinear_arith);
            assert(i as int * (u64::MAX as int) <= (usize::MAX as int) * (u64::MAX as int))
                by (nonlinear_arith)
                requires
                    0 <= i as int <= usize::MAX as int,
            ;
        }
        let w = weights.reward_of(&sorted[i]);
        acc = acc + w as u128;
    }
    proof {
        assert(sorted@.subrange(0, n as int) =~= sorted@);
        let s = all_keys_set(lists_model(attesters@));
        assert(forall|k: EpochAttesterID| sorted@.contains(k) == s.contains(k));
        assert(exists|q: Seq<EpochAttesterID>|
            strictly_sorted(q) && (forall|k: EpochAttesterID| q.contains(k) == s.contains(k)))
            by {
            assert(strictly_sorted(sorted@) && (forall|k: EpochAttesterID|
                sorted@.contains(k) == s.contains(k)));
        }
        let q = sorted_keys_of(s);
        assert(strictly_sorted(q) && (forall|k: EpochAttesterID| q.contains(k) == s.contains(k)));
        lemma_strictly_sorted_unique(q, sorted@);
    }
    acc
}

/// The number of distinct voters appearing in the given lists.
pub fn count_distinct_voters(attesters: &Vec<Vec<EpochAttesterID>>) -> (r: usize)
    ensures
        r == all_keys_set(lists_model(attesters@)).len(),
{
    let all = collect_voters(attesters);
    let sorted = sort_dedup(&all);
    proof {
        let s = all_keys_set(lists_model(attesters@));
        lemma_strictly_sorted_no_duplicates(sorted@);
        sorted@.unique_seq_to_set();
        assert(sorted@.to_set() =~= s);
    }
    sorted.len()
}

/// A voter with no recorded reward contributes nothing: dropping it from the
/// listing leaves the summed total unchanged, so it can never change a
/// selection's value.
pub proof fn lemma_zero_reward_voter_drops_out(q: Seq<EpochAttesterID>, i: int, t: RewardTable)
    requires
        0 <= i < q.len(),
        t.spec_reward(q[i]) == 0,
    ensures
        sum_rewards_seq(q, t) == sum_rewards_seq(q.remove(i), t),
    decreases q.len(),
{
    if i == q.len() - 1 {
        assert(q.remove(i) =~= q.drop_last());
    } else {
        let qd = q.drop_last();
        assert(qd[i] == q[i]);
        assert(q.remove(i).drop_last() =~= qd.remove(i));
        assert(q.remove(i).last() == q.last());
        lemma_zero_reward_voter_drops_out(qd, i, t);
    }
}

proof fn lemma_all_keys_set_finite(lists: Seq<Seq<EpochAttesterID>>)
    ensures
        all_keys_set(lists).finite(),
    decreases lists.len(),
{
    broadcast use vstd::seq_lib::seq_to_set_is_finite;

    if lists.len() == 0 {
        assert(all_keys_set(lists) =~= Set::<EpochAttesterID>::empty());
    } else {
        let pre = lists.drop_last();
        lemma_all_keys_set_finite(pre);
        assert(all_keys_set(lists) =~= all_keys_set(pre) + lists.last().to_set()) by {
            assert forall|k: EpochAttesterID|
                all_keys_set(lists).contains(k) == (all_keys_set(pre) + lists.last().to_set())
                    .contains(k) by {
                if all_keys_set(lists).contains(k) {
                    let i = choose|i: int| 0 <= i < lists.len() && lists[i].contains(k);
                    if i < lists.len() - 1 {
                        assert(pre[i] == lists[i]);
                        assert(all_keys_set(pre).contains(k));
                    } else {
                        assert(lists.last().contains(k));
                    }
                }
                if all_keys_set(pre).contains(k) {
                    let i = choose|i: int| 0 <= i < pre.len() && pre[i].contains(k);
                    assert(lists[i].contains(k));
                }
                if lists.last().to_set().contains(k) {
                    assert(lists[lists.len() - 1].contains(k));
                }
            }
        }
    }
}

/// Two strictly sorted listings where the second only adds zero-reward keys
/// have the same reward sum.
proof fn lemma_sum_zero_extras(qa: Seq<EpochAttesterID>, qb: Seq<EpochAttesterID>, t: RewardTable)
    requires
        strictly_sorted(qa),
        strictly_sorted(qb),
        forall|k: EpochAttesterID| qa.contains(k) ==> qb.contains(k),
        forall|k: EpochAttesterID| qb.contains(k) && !qa.contains(k) ==> t.spec_reward(k) == 0,
    ensures
        sum_rewards_seq(qb, t) == sum_rewards_seq(qa, t),
    decreases qb.len(),
{
    if forall|k: EpochAttesterID| qb.contains(k) ==> #[trigger] qa.contains(k) {
        lemma_strictly_sorted_unique(qa, qb);
    } else {
        let k = choose|k: EpochAttesterID| qb.contains(k) && !qa.contains(k);
        assert(t.spec_reward(k) == 0);
        let i = choose|i: int| 0 <= i < qb.len() && qb[i] == k;
        lemma_zero_reward_voter_drops_out(qb, i, t);
        let qb2 = qb.remove(i);
        lemma_strictly_sorted_no_duplicates(qb);
        assert(strictly_sorted(qb2)) by {
            assert forall|a: int, b: int| 0 <= a < b < qb2.len() implies crate::keys::key_lt(
                qb2[a],
                qb2[b],
            ) by {
                let oa = if a < i {
                    a
                } else {
                    a + 1
                };
                let ob = if b < i {
                    b
                } else {
                    b + 1
                };
                assert(qb2[a] == qb[oa] && qb2[b] == qb[ob]);
            }
        }
        assert forall|x: EpochAttesterID| qb2.contains(x) implies qb.contains(x) && x != k by {
            let m = choose|m: int| 0 <= m < qb2.len() && qb2[m] == x;
            let om = if m < i {
                m
            } else {
                m + 1
            };
            assert(qb[om] == x);
            if x == k {
                assert(qb[om] == qb[i]);
                assert(false);
            }
        }
        assert forall|x: EpochAttesterID| qb.contains(x) && x != k implies qb2.contains(x) by {
            let m = choose|m: int| 0 <= m < qb.len() && qb[m] == x;
            assert(m != i);
            if m < i {
                assert(qb2[m] == x);
            } else {
                assert(qb2[m - 1] == x);
            }
        }
        lemma_sum_zero_extras(qa, qb2, t);
    }
}

/// Missing-weight lookups are never more than weight 0: widening the covered
/// voters by keys absent from the reward table (or recorded with reward 0)
/// leaves the deduplicated total reward unchanged.
pub proof fn lemma_reward_ignores_zero_voters(
    a: Seq<Seq<EpochAttesterID>>,
    b: Seq<Seq<EpochAttesterID>>,
    t: RewardTable,
)
    requires
        forall|k: EpochAttesterID|
            all_keys_set(a).contains(k) ==> all_keys_set(b).contains(k),
        forall|k: EpochAttesterID|
            all_keys_set(b).contains(k) && !all_keys_set(a).contains(k) ==> t.spec_reward(k) == 0,
    ensures
        spec_total_reward(all_keys_set(b), t) == spec_total_reward(all_keys_set(a), t),
{
    let sa = all_keys_set(a);
    let sb = all_keys_set(b);
    lemma_all_keys_set_finite(a);
    lemma_all_keys_set_finite(b);
    lemma_finite_set_listable(sa);
    lemma_finite_set_listable(sb);
    let qa = sorted_keys_of(sa);
    let qb = sorted_keys_of(sb);
    assert(strictly_sorted(qa) && (forall|k: EpochAttesterID| qa.contains(k) == sa.contains(k)));
    assert(strictly_sorted(qb) && (forall|k: EpochAttesterID| qb.contains(k) == sb.contains(k)));
    lemma_sum_zero_extras(qa, qb, t);
}

/// Rewards depend only on which voters are covered: reordering the lists
/// changes nothing.
pub proof fn lemma_reward_reorder_invariant(
    a: Seq<Seq<EpochAttesterID>>,
    b: Seq<Seq<EpochAttesterID>>,
    t: RewardTable,
)
    requires
        a.to_multiset() == b.to_multiset(),
    ensures
        all_keys_set(a) == all_keys_set(b),
        spec_total_reward(all_keys_set(a), t) == spec_total_reward(all_keys_set(b), t),
{
    broadcast use vstd::seq_lib::group_to_multiset_ensures;

    assert forall|k: EpochAttesterID|
        all_keys_set(a).contains(k) == all_keys_set(b).contains(k) by {
        if all_keys_set(a).contains(k) {
            let i = choose|i: int| 0 <= i < a.len() && a[i].contains(k);
            assert(a.contains(a[i]));
            assert(a.to_multiset().contains(a[i]));
            assert(b.to_multiset().contains(a[i]));
            assert(b.contains(a[i]));
            let j = choose|j: int| 0 <= j < b.len() && b[j] == a[i];
            assert(b[j].contains(k));
        }
        if all_keys_set(b).contains(k) {
            let i = choose|i: int| 0 <= i < b.len() && b[i].contains(k);
            assert(b.contains(b[i]));
            assert(b.to_multiset().contains(b[i]));
            assert(a.to_multiset().contains(b[i]));
            assert(a.contains(b[i]));
            let j = choose|j: int| 0 <= j < a.len() && a[j] == b[i];
            assert(a[j].contains(k));
        }
    }
    assert(all_keys_set(a) =~= all_keys_set(b));
}

/// Rewards are deduplicated: appending a list whose voters all already appear
/// somewhere changes nothing.
pub proof fn lemma_reward_duplicate_voters(
    a: Seq<Seq<EpochAttesterID>>,
    extra: Seq<EpochAttesterID>,
    t: RewardTable,
)
    requires
        forall|k: EpochAttesterID| extra.contains(k) ==> all_keys_set(a).contains(k),
    ensures
        all_keys_set(a.push(extra)) == all_keys_set(a),
        spec_total_reward(all_keys_set(a.push(extra)), t) == spec_total_reward(all_keys_set(a), t),
{
    assert forall|k: EpochAttesterID|
        all_keys_set(a.push(extra)).contains(k) == all_keys_set(a).contains(k) by {
        if all_keys_set(a.push(extra)).contains(k) {
            let i = choose|i: int| 0 <= i < a.push(extra).len() && a.push(extra)[i].contains(k);
            if i < a.len() {
                assert(a[i].contains(k));
            } else {
                assert(extra.contains(k));
            }
        }
        if all_keys_set(a).contains(k) {
            let i = choose|i: int| 0 <= i < a.len() && a[i].contains(k);
            assert(a.push(extra)[i].contains(k));
        }
    }
    assert(all_keys_set(a.push(extra)) =~= all_keys_set(a));
}

/// Index `x` is a valid dense index and names the voter `v` in the universe.
pub open spec fn maps_to(new_to_old: Seq<EpochAttesterID>, x: usize, v: EpochAttesterID) -> bool {
    x < new_to_old.len() && new_to_old[x as int] == v
}

/// Rewrite each candidate set as dense universe indices: position `j` of set
/// `i` becomes the position of that voter in the sorted universe.
pub fn reindex_sets(cliqued: &Vec<Vec<EpochAttesterID>>, new_to_old: &Vec<EpochAttesterID>) -> (r:
    Vec<Vec<usize>>)
    requires
        strictly_sorted(new_to_old@),
        forall|i: int, j: int|
            0 <= i < cliqued@.len() && 0 <= j < cliqued@[i]@.len() ==> new_to_old@.contains(
                cliqued@[i]@[j],
            ),
    ensures
        r@.len() == cliqued@.len(),
        forall|i: int| 0 <= i < r@.len() ==> r@[i]@.len() == cliqued@[i]@.len(),
        forall|i: int, j: int|
            0 <= i < r@.len() && 0 <= j < r@[i]@.len() ==> #[trigger] maps_to(
                new_to_old@,
                r@[i]@[j],
                cliqued@[i]@[j],
            ),
{
    let mut r: Vec<Vec<usize>> = Vec::new();
    let n = cliqued.len();
    for i in 0..n
        invariant
            n == cliqued@.len(),
            strictly_sorted(new_to_old@),
            forall|a: int, b: int|
                0 <= a < cliqued@.len() && 0 <= b < cliqued@[a]@.len() ==> new_to_old@.contains(
                    cliqued@[a]@[b],
                ),
            r@.len() == i,
            forall|a: int| 0 <= a < i ==> r@[a]@.len() == cliqued@[a]@.len(),
            forall|a: int, b: int|
                0 <= a < i && 0 <= b < r@[a]@.len() ==> #[trigger] maps_to(
                    new_to_old@,
                    r@[a]@[b],
                    cliqued@[a]@[b],
                ),
    {
        let row = &cliqued[i];
        let m = row.len();
        let mut out: Vec<usize> = Vec::new();
        for j in 0..m
            invariant
                m == row@.len(),
                i < n,
                n == cliqued@.len(),
                row@ == cliqued@[i as int]@,
                strictly_sorted(new_to_old@),
                forall|a: int, b: int|
                    0 <= a < cliqued@.len() && 0 <= b < cliqued@[a]@.len() ==> new_to_old@.contains(
                        cliqued@[a]@[b],
                    ),
                out@.len() == j,
                forall|b: int|
                    0 <= b < j ==> #[trigger] maps_to(new_to_old@, out@[b], row@[b]),
        {
            proof {
                assert(new_to_old@.contains(cliqued@[i as int]@[j as int]));
            }
            let idx = index_of(new_to_old, &row[j]);
            let ghost out_old = out@;
            out.push(idx);
            proof {
                assert forall|b: int|
                    0 <= b < j + 1 implies #[trigger] maps_to(new_to_old@, out@[b], row@[b]) by {
                    if b < j {
                        assert(out@[b] == out_old[b]);
                        assert(maps_to(new_to_old@, out_old[b], row@[b]));
                    } else {
                        assert(out@[b] == idx);
                        assert(new_to_old@[idx as int] == cliqued@[i as int]@[j as int]);
                    }
                }
            }
        }
        let ghost r_old = r@;
        r.push(out);
        proof {
            assert forall|a: int, b: int|
                0 <= a < i + 1 && 0 <= b < r@[a]@.len() implies #[trigger] maps_to(
                new_to_old@,
                r@[a]@[b],
                cliqued@[a]@[b],
            ) by {
                if a < i {
                    assert(r@[a] == r_old[a]);
                    assert(maps_to(new_to_old@, r_old[a]@[b], cliqued@[a]@[b]));
                } else {
                    assert(r@[a] == out);
                    assert(maps_to(new_to_old@, out@[b], row@[b]));
                }
            }
            assert forall|a: int| 0 <= a < i + 1 implies r@[a]@.len() == cliqued@[a]@.len() by {
                if a < i {
                    assert(r@[a] == r_old[a]);
                } else {
                    assert(r@[a] == out);
                }
            }
        }
    }
    r
}

/// The table rewards of the dense universe, in universe order: absent voters
/// weigh 0.
pub fn reindexed_weights(new_to_old: &Vec<EpochAttesterID>, t: &RewardTable) -> (r: Vec<u64>)
    requires
        t.wf(),
    ensures
        r@.len() == new_to_old@.len(),
        forall|i: int| 0 <= i < r@.len() ==> r@[i] == t.spec_reward(new_to_old@[i]),
{
    let mut r: Vec<u64> = Vec::new();
    let n = new_to_old.len();
    for i in 0..n
        invariant
            n == new_to_old@.len(),
            t.wf(),
            r@.len() == i,
            forall|m: int| 0 <= m < i ==> r@[m] == t.spec_reward(new_to_old@[m]),
    {
        r.push(t.reward_of(&new_to_old[i]));
    }
    r
}

/// Map dense universe indices back to voter keys.
pub fn unreindex(sets: &Vec<Vec<usize>>, new_to_old: &Vec<EpochAttesterID>) -> (r: Vec<
    Vec<EpochAttesterID>,
>)
    requires
        forall|i: int, j: int|
            0 <= i < sets@.len() && 0 <= j < sets@[i]@.len() ==> sets@[i]@[j] < new_to_old@.len(),
    ensures
        r@.len() == sets@.len(),
        forall|i: int| 0 <= i < r@.len() ==> r@[i]@.len() == sets@[i]@.len(),
        forall|i: int, j: int|
            0 <= i < r@.len() && 0 <= j < r@[i]@.len() ==> r@[i]@[j] == new_to_old@[sets@[i]@[j] as int],
{
    let mut r: Vec<Vec<EpochAttesterID>> = Vec::new();
    let n = sets.len();
    for i in 0..n
        invariant
            n == sets@.len(),
            forall|a: int, b: int|
                0 <= a < sets@.len() && 0 <= b < sets@[a]@.len() ==> sets@[a]@[b]
                    < new_to_old@.len(),
            r@.len() == i,
            forall|a: int| 0 <= a < i ==> r@[a]@.len() == sets@[a]@.len(),
            forall|a: int, b: int|
                0 <= a < i && 0 <= b < r@[a]@.len() ==> r@[a]@[b] == new_to_old@[sets@[a]@[b] as int],
    {
        let row = &sets[i];
        let m = row.len();
        let mut out: Vec<EpochAttesterID> = Vec::new();
        for j in 0..m
            invariant
                m == row@.len(),
                i < n,
                n == sets@.len(),
                row@ == sets@[i as int]@,
                forall|a: int, b: int|
                    0 <= a < sets@.len() && 0 <= b < sets@[a]@.len() ==> sets@[a]@[b]
                        < new_to_old@.len(),
                out@.len() == j,
                forall|b: int| 0 <= b < j ==> out@[b] == new_to_old@[row@[b] as int],
        {
            proof {
                assert(sets@[i as int]@[j as int] < new_to_old@.len());
            }
            let picked = new_to_old[row[j]];
            let ghost out_old = out@;
            out.push(picked);
            proof {
                assert forall|b: int|
                    0 <= b < j + 1 implies out@[b] == new_to_old@[row@[b] as int] by {
                    if b < j {
                        assert(out@[b] == out_old[b]);
                    } else {
                        assert(out@[b] == picked);
                    }
                }
            }
        }
        let ghost r_old = r@;
        r.push(out);
        proof {
            assert forall|a: int, b: int|
                0 <= a < i + 1 && 0 <= b < r@[a]@.len() implies r@[a]@[b] == new_to_old@[sets@[a]@[b] as int] by {
                if a < i {
                    assert(r@[a] == r_old[a]);
                } else {
                    assert(r@[a] == out);
                }
            }
            assert forall|a: int| 0 <= a < i + 1 implies r@[a]@.len() == sets@[a]@.len() by {
                if a < i {
                    assert(r@[a] == r_old[a]);
                } else {
                    assert(r@[a] == out);
                }
            }
        }
    }
    r
}

/// Round trip: reindexing the candidate sets into the dense universe and
/// mapping the indices back reproduces the original voter lists exactly.
pub proof fn lemma_reindex_round_trip(
    cliqued: Seq<Seq<EpochAttesterID>>,
    reindexed: Seq<Seq<usize>>,
    back: Seq<Seq<EpochAttesterID>>,
    new_to_old: Seq<EpochAttesterID>,
)
    requires
        reindexed.len() == cliqued.len(),
        forall|i: int| 0 <= i < reindexed.len() ==> reindexed[i].len() == cliqued[i].len(),
        forall|i: int, j: int|
            0 <= i < reindexed.len() && 0 <= j < reindexed[i].len() ==> #[trigger] maps_to(
                new_to_old,
                reindexed[i][j],
                cliqued[i][j],
            ),
        back.len() == reindexed.len(),
        forall|i: int| 0 <= i < back.len() ==> back[i].len() == reindexed[i].len(),
        forall|i: int, j: int|
            0 <= i < back.len() && 0 <= j < back[i].len() ==> back[i][j]
                == new_to_old[reindexed[i][j] as int],
    ensures
        back =~~= cliqued,
{
    assert forall|i: int| 0 <= i < back.len() implies back[i] =~= cliqued[i] by {
        assert forall|j: int| 0 <= j < back[i].len() implies back[i][j] == cliqued[i][j] by {
            assert(maps_to(new_to_old, reindexed[i][j], cliqued[i][j]));
            assert(back[i][j] == new_to_old[reindexed[i][j] as int]);
        }
    }
}

/// The selected candidate sets, in selection order.
pub fn select_candidates(cliqued: &Vec<Vec<EpochAttesterID>>, chosen: &Vec<usize>) -> (r: Vec<
    Vec<EpochAttesterID>,
>)
    requires
        forall|i: int| 0 <= i < chosen@.len() ==> chosen@[i] < cliqued@.len(),
    ensures
        r@.len() == chosen@.len(),
        forall|i: int| 0 <= i < r@.len() ==> r@[i]@ == cliqued@[chosen@[i] as int]@,
{
    let mut r: Vec<Vec<EpochAttesterID>> = Vec::new();
    let n = chosen.len();
    for i in 0..n
        invariant
            n == chosen@.len(),
            forall|a: int| 0 <= a < chosen@.len() ==> chosen@[a] < cliqued@.len(),
            r@.len() == i,
            forall|a: int| 0 <= a < i ==> r@[a]@ == cliqued@[chosen@[a] as int]@,
    {
        let mut out: Vec<EpochAttesterID> = Vec::new();
        let row = &cliqued[chosen[i]];
        let m = row.len();
        for j in 0..m
            invariant
                m == row@.len(),
                i < n,
                n == chosen@.len(),
                row@ == cliqued@[chosen@[i as int] as int]@,
                out@ =~= row@.subrange(0, j as int),
        {
            out.push(row[j]);
            proof {
                assert(row@.subrange(0, j + 1 as int) =~= row@.subrange(0, j as int).push(
                    row@[j as int]));
            }
        }
        proof {
            assert(row@.subrange(0, m as int) =~= row@);
        }
        let ghost r_old = r@;
        r.push(out);
        proof {
            assert forall|a: int| 0 <= a < i + 1 implies r@[a]@ == cliqued@[chosen@[a] as int]@ by {
                if a < i {
                    assert(r@[a] == r_old[a]);
                } else {
                    assert(r@[a] == out);
                }
            }
        }
    }
    r
}

/// The relative reward shortfall of the baseline against the optimum,
/// `1 - baseline / optimal`, kept exact. A zero optimum admits no ratio: with
/// a zero baseline it is reported undefined, with a positive baseline as
/// total loss (the value 1).
#[derive(Debug, PartialEq, Eq, Structural, Clone, Copy)]
pub enum LossRatio {
    /// Both optimum and baseline are 0: no ratio is defined.
    Undefined,
    /// The optimum is 0 but the baseline is positive: reported as 1.
    TotalLoss,
    /// The optimum is positive: the value `1 - baseline / optimal`.
    Ratio { baseline: u128, optimal: u128 },
}

/// Classify the loss ratio of a baseline reward against the optimal reward.
pub fn loss_ratio(optimal: u128, baseline: u128) -> (r: LossRatio)
    ensures
        optimal == 0 && baseline == 0 ==> r == LossRatio::Undefined,
        optimal == 0 && baseline > 0 ==> r == LossRatio::TotalLoss,
        optimal > 0 ==> r == (LossRatio::Ratio { baseline, optimal }),
{
    if optimal == 0 {
        if baseline == 0 {
            LossRatio::Undefined
        } else {
            LossRatio::TotalLoss
        }
    } else {
        LossRatio::Ratio { baseline, optimal }
    }
}

/// The sum of a list of per-target candidate-set counts.
pub open spec fn sum_counts(s: Seq<usize>) -> int
    decreases s.len(),
{
    if s.len() == 0 {
        0
    } else {
        sum_counts(s.drop_last()) + s.last() as int
    }
}

/// Minimum, maximum and sum of the per-target candidate-set counts.
pub fn clique_stats(counts: &Vec<usize>) -> (r: (usize, usize, u128))
    requires
        counts@.len() > 0,
    ensures
        counts@.contains(r.0),
        forall|i: int| 0 <= i < counts@.len() ==> r.0 <= counts@[i],
        counts@.contains(r.1),
        forall|i: int| 0 <= i < counts@.len() ==> counts@[i] <= r.1,
        r.2 == sum_counts(counts@),
{
    let mut lo = counts[0];
    let mut hi = counts[0];
    let mut total: u128 = 0;
    proof {
        assert(counts@.contains(counts@[0]));
    }
    let n = counts.len();
    for i in 0..n
        invariant
            n == counts@.len(),
            n > 0,
            counts@.contains(lo),
            forall|m: int| 0 <= m < i ==> lo <= counts@[m],
            counts@.contains(hi),
            forall|m: int| 0 <= m < i ==> counts@[m] <= hi,
            total == sum_counts(counts@.subrange(0, i as int)),
            total <= i as int * (u64::MAX as int),
    {
        let c = counts[i];
        proof {
            assert(counts@.contains(counts@[i as int]));
            let pre = counts@.subrange(0, i as int);
            let cur = counts@.subrange(0, i + 1 as int);
            assert(cur.drop_last() =~= pre);
            assert(cur.last() == counts@[i as int]);
            assert((i + 1) as int * (u64::MAX as int) == i as int * (u64::MAX as int) + (
            u64::MAX as int)) by (nonlinear_arith);
            assert(i as int * (u64::MAX as int) <= (usize::MAX as int) * (u64::MAX as int))
                by (nonlinear_arith)
                requires
                    0 <= i as int <= usize::MAX as int,
            ;
            assert(counts@[i as int] <= usize::MAX);
            assert(usize::MAX <= u64::MAX);
        }
        if c < lo {
            lo = c;
        }
        if c > hi {
            hi = c;
        }
        total = total + c as u128;
    }
    proof {
        assert(counts@.subrange(0, n as int) =~= counts@);
    }
    (lo, hi, total)
}

/// Everything the optimized-packing pipeline derives before the solve, with
/// the default selection cap.
pub fn build_coverage_problem(instance: &Instance) -> (r: (
    WeightedMaximumCoverage,
    Vec<Vec<EpochAttesterID>>,
    Vec<usize>,
    Vec<EpochAttesterID>,
))
    requires
        instance.reward_function.wf(),
        forall|j: int|
            0 <= j < instance.unaggregated_attestations@.len()
                ==> instance.unaggregated_attestations@[j].attesting_indices@.len() > 0,
    ensures
        forall|i: int|
            0 <= i < r.1@.len() ==> valid_candidate(
                instance.aggregated_attestations@,
                instance.unaggregated_attestations@,
                r.1@[i]@,
            ),
        forall|d: crate::instance::AttestationData|
            has_root(instance.aggregated_attestations@, d) ==> #[trigger] target_candidates_listed(
                instance.aggregated_attestations@,
                instance.unaggregated_attestations@,
                r.1@,
                d,
            ),
        forall|d: crate::instance::AttestationData|
            has_root(instance.unaggregated_attestations@, d) && !has_root(
                instance.aggregated_attestations@,
                d,
            ) ==> #[trigger] fallback_listed(instance.unaggregated_attestations@, r.1@, d),
        r.2@.len() == root_set(instance.aggregated_attestations@).len() + root_set(
            instance.unaggregated_attestations@,
        ).len(),
        forall|i: int|
            0 <= i < root_set(instance.aggregated_attestations@).len() ==> group_count_matches(
                instance.aggregated_attestations@,
                #[trigger] r.2@[i],
            ),
        forall|i: int|
            root_set(instance.aggregated_attestations@).len() <= i < r.2@.len() ==> r.2@[i] == 1,
        strictly_sorted(r.3@),
        forall|k: EpochAttesterID|
            r.3@.contains(k) <==> all_keys_set(lists_model(r.1@)).contains(k),
        r.0.k == MAX_SELECTED_SETS,
        r.0.weights@.len() == r.3@.len(),
        forall|i: int|
            0 <= i < r.0.weights@.len() ==> r.0.weights@[i] == instance.reward_function.spec_reward(
                r.3@[i],
            ),
        r.0.sets@.len() == r.1@.len(),
        forall|i: int| 0 <= i < r.0.sets@.len() ==> r.0.sets@[i]@.len() == r.1@[i]@.len(),
        forall|i: int, j: int|
            0 <= i < r.0.sets@.len() && 0 <= j < r.0.sets@[i]@.len() ==> #[trigger] maps_to(
                r.3@,
                r.0.sets@[i]@[j],
                r.1@[i]@[j],
            ),
        r.0.wf(),
{
    build_coverage_problem_with_cap(instance, MAX_SELECTED_SETS)
}

/// As `build_coverage_problem`, but with the selection cap chosen by the
/// caller: the coverage solver may then select at most `max_selected_sets`
/// candidate sets.
pub fn build_coverage_problem_with_cap(instance: &Instance, max_selected_sets: usize) -> (r: (
    WeightedMaximumCoverage,
    Vec<Vec<EpochAttesterID>>,
    Vec<usize>,
    Vec<EpochAttesterID>,
))
    requires
        instance.reward_function.wf(),
        forall|j: int|
            0 <= j < instance.unaggregated_attestations@.len()
                ==> instance.unaggregated_attestations@[j].attesting_indices@.len() > 0,
    ensures
        forall|i: int|
            0 <= i < r.1@.len() ==> valid_candidate(
                instance.aggregated_attestations@,
                instance.unaggregated_attestations@,
                r.1@[i]@,
            ),
        forall|d: crate::instance::AttestationData|
            has_root(instance.aggregated_attestations@, d) ==> #[trigger] target_candidates_listed(
                instance.aggregated_attestations@,
                instance.unaggregated_attestations@,
                r.1@,
                d,
            ),
        forall|d: crate::instance::AttestationData|
            has_root(instance.unaggregated_attestations@, d) && !has_root(
                instance.aggregated_attestations@,
                d,
            ) ==> #[trigger] fallback_listed(instance.unaggregated_attestations@, r.1@, d),
        r.2@.len() == root_set(instance.aggregated_attestations@).len() + root_set(
            instance.unaggregated_attestations@,
        ).len(),
        forall|i: int|
            0 <= i < root_set(instance.aggregated_attestations@).len() ==> group_count_matches(
                instance.aggregated_attestations@,
                #[trigger] r.2@[i],
            ),
        forall|i: int|
            root_set(instance.aggregated_attestations@).len() <= i < r.2@.len() ==> r.2@[i] == 1,
        strictly_sorted(r.3@),
        forall|k: EpochAttesterID|
            r.3@.contains(k) <==> all_keys_set(lists_model(r.1@)).contains(k),
        r.0.k == max_selected_sets,
        r.0.weights@.len() == r.3@.len(),
        forall|i: int|
            0 <= i < r.0.weights@.len() ==> r.0.weights@[i] == instance.reward_function.spec_reward(
                r.3@[i],
            ),
        r.0.sets@.len() == r.1@.len(),
        forall|i: int| 0 <= i < r.0.sets@.len() ==> r.0.sets@[i]@.len() == r.1@[i]@.len(),
        forall|i: int, j: int|
            0 <= i < r.0.sets@.len() && 0 <= j < r.0.sets@[i]@.len() ==> #[trigger] maps_to(
                r.3@,
                r.0.sets@[i]@[j],
                r.1@[i]@[j],
            ),
        r.0.wf(),
{
    let (cliqued, num_cliques) = build_candidate_sets(
        &instance.aggregated_attestations,
        &instance.unaggregated_attestations,
    );
    let all = collect_voters(&cliqued);
    let new_to_old = sort_dedup(&all);
    proof {
        lemma_lists_model_index(cliqued@);
        assert forall|i: int, j: int|
            0 <= i < cliqued@.len() && 0 <= j < cliqued@[i]@.len() implies new_to_old@.contains(
            cliqued@[i]@[j],
        ) by {
            assert(lists_model(cliqued@)[i].contains(cliqued@[i]@[j]));
            assert(all_keys_set(lists_model(cliqued@)).contains(cliqued@[i]@[j]));
        }
    }
    let sets = reindex_sets(&cliqued, &new_to_old);
    let weights = reindexed_weights(&new_to_old, &instance.reward_function);
    let wmc = WeightedMaximumCoverage { sets, weights, k: max_selected_sets };
    proof {
        assert(wmc.wf()) by {
            assert forall|i: int, j: int|
                0 <= i < wmc.sets@.len() && 0 <= j < wmc.sets@[i]@.len() implies wmc.sets@[i]@[j]
                < wmc.weights@.len() by {
                assert(maps_to(new_to_old@, wmc.sets@[i]@[j], cliqued@[i]@[j]));
            }
        }
    }
    (wmc, cliqued, num_cliques, new_to_old)
}

} // verus!
