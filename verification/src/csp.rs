use vstd::multiset::Multiset;
use vstd::prelude::*;

use crate::resource::ResourceAllocation;
use crate::scheduler::{
    allocate_in_order, law_greedy_within_budget, law_priority_order_permutes, priority_order,
    total_need,
};
use crate::trit::TritAction;
use crate::task::TernaryTask;

verus! {

/// Bit `i` of `mask` is set: task `i` belongs to the subset that `mask` picks.
pub open spec fn bit_set(mask: u32, i: int) -> bool {
    mask & (1u32 << (i as u32)) != 0u32
}

/// The number of subsets of `n` tasks, as a mask bound: `1 << n`.
pub open spec fn mask_limit(n: nat) -> u32 {
    1u32 << (n as u32)
}

/// The ids of the tasks among the first `k` that `mask` picks, in task order.
pub open spec fn chosen_ids(tasks: Seq<TernaryTask>, mask: u32, k: nat) -> Seq<usize>
    decreases k,
{
    if k == 0 {
        Seq::empty()
    } else {
        let prev = chosen_ids(tasks, mask, (k - 1) as nat);
        if bit_set(mask, k - 1) {
            prev.push(tasks[k - 1].id)
        } else {
            prev
        }
    }
}

/// The summed resource need of the tasks among the first `k` that `mask` picks.
pub open spec fn chosen_need(tasks: Seq<TernaryTask>, mask: u32, k: nat) -> int
    decreases k,
{
    if k == 0 {
        0
    } else {
        chosen_need(tasks, mask, (k - 1) as nat) + if bit_set(mask, k - 1) {
            tasks[k - 1].resource_need as int
        } else {
            0
        }
    }
}

/// The summed priority of the tasks among the first `k` that `mask` picks.
pub open spec fn chosen_score(tasks: Seq<TernaryTask>, mask: u32, k: nat) -> int
    decreases k,
{
    if k == 0 {
        0
    } else {
        chosen_score(tasks, mask, (k - 1) as nat) + if bit_set(mask, k - 1) {
            tasks[k - 1].priority.numeric() as int
        } else {
            0
        }
    }
}

/// The subset that `mask` picks fits in `budget`.
pub open spec fn fits(tasks: Seq<TernaryTask>, mask: u32, budget: u64) -> bool {
    chosen_need(tasks, mask, tasks.len()) <= budget
}

/// The total priority of the subset that `mask` picks.
pub open spec fn score(tasks: Seq<TernaryTask>, mask: u32) -> int {
    chosen_score(tasks, mask, tasks.len())
}

/// `m` picks a subset that fits, has the highest total priority of all subsets that
/// fit, and is the first mask to reach that priority.
pub open spec fn is_best_mask(tasks: Seq<TernaryTask>, budget: u64, m: u32) -> bool {
    &&& m < mask_limit(tasks.len())
    &&& fits(tasks, m, budget)
    &&& forall|m2: u32|
        m2 < mask_limit(tasks.len()) && #[trigger] fits(tasks, m2, budget) ==> score(tasks, m2)
            <= score(tasks, m)
    &&& forall|m2: u32| m2 < m && #[trigger] fits(tasks, m2, budget) ==> score(tasks, m2) < score(tasks, m)
}

proof fn lemma_chosen_need_bounded(tasks: Seq<TernaryTask>, mask: u32, k: nat)
    requires
        k <= tasks.len(),
    ensures
        0 <= chosen_need(tasks, mask, k) <= total_need(tasks.take(k as int)),
    decreases k,
{
    if k > 0 {
        lemma_chosen_need_bounded(tasks, mask, (k - 1) as nat);
        assert(tasks.take(k as int).drop_last() =~= tasks.take(k - 1));
    }
}

proof fn lemma_total_need_prefix(tasks: Seq<TernaryTask>, k: nat)
    requires
        k <= tasks.len(),
    ensures
        0 <= total_need(tasks.take(k as int)) <= total_need(tasks),
    decreases tasks.len() - k,
{
    if k < tasks.len() {
        lemma_total_need_prefix(tasks, k + 1);
        lemma_total_need_nonneg(tasks.take(k as int));
        assert(tasks.take(k + 1 as int).drop_last() =~= tasks.take(k as int));
    } else {
        assert(tasks.take(k as int) =~= tasks);
        lemma_total_need_nonneg(tasks);
    }
}

proof fn lemma_total_need_nonneg(tasks: Seq<TernaryTask>)
    ensures
        total_need(tasks) >= 0,
    decreases tasks.len(),
{
    if tasks.len() > 0 {
        lemma_total_need_nonneg(tasks.drop_last());
    }
}

/// The empty mask picks nothing.
proof fn lemma_empty_mask(tasks: Seq<TernaryTask>, k: nat)
    ensures
        chosen_need(tasks, 0, k) == 0,
        chosen_score(tasks, 0, k) == 0,
    decreases k,
{
    if k > 0 {
        lemma_empty_mask(tasks, (k - 1) as nat);
        let s = (k - 1) as u32;
        assert(0u32 & (1u32 << s) == 0u32) by (bit_vector);
    }
}

proof fn lemma_chosen_score_bounded(tasks: Seq<TernaryTask>, mask: u32, k: nat)
    ensures
        -k <= chosen_score(tasks, mask, k) <= k,
    decreases k,
{
    if k > 0 {
        lemma_chosen_score_bounded(tasks, mask, (k - 1) as nat);
    }
}

/// Constraint-satisfaction solver: tries to maximize total priority score.
///
/// Tries every subset (brute force for small task sets) and returns the ids, in task
/// order, of the first subset with the highest total priority among those whose summed
/// resource need fits in `total_resources`.
pub fn csp_solve(tasks: &[TernaryTask], total_resources: u64) -> (best: Vec<usize>)
    requires
        tasks@.len() < 32,
        total_need(tasks@) <= u64::MAX,
    ensures
        exists|m: u32|
            is_best_mask(tasks@, total_resources, m) && best@ == chosen_ids(tasks@, m, tasks@.len()),
        exists|m: u32|
            is_best_mask(tasks@, total_resources, m) && best@ == chosen_tasks(
                tasks@,
                m,
                tasks@.len(),
            ).map_values(|t: TernaryTask| t.id),
        forall|j: int|
            #![trigger best@[j]]
            0 <= j < best@.len() ==> exists|i: int|
                #![trigger tasks@[i]]
                0 <= i < tasks@.len() && best@[j] == tasks@[i].id,
{
    let n = tasks.len();
    let mut best_score: i32 = i32::MIN;
    let mut best_set: Vec<usize> = Vec::new();
    let ghost mut best_mask: u32 = 0;
    let shift = n as u32;
    let limit: u32 = 1u32 << shift;
    proof {
        assert(limit >= 1u32) by (bit_vector)
            requires
                limit == 1u32 << shift,
                shift < 32,
        ;
    }
    let mut mask: u32 = 0;
    while mask < limit
        invariant
            n == tasks@.len(),
            n < 32,
            shift == n,
            limit == mask_limit(n as nat),
            mask <= limit,
            total_need(tasks@) <= u64::MAX,
            mask > 0 ==> {
                &&& best_mask < mask
                &&& fits(tasks@, best_mask, total_resources)
                &&& best_score == score(tasks@, best_mask)
                &&& best_set@ == chosen_ids(tasks@, best_mask, n as nat)
                &&& forall|m2: u32|
                    m2 < mask && #[trigger] fits(tasks@, m2, total_resources) ==> score(tasks@, m2)
                        <= best_score
                &&& forall|m2: u32|
                    m2 < best_mask && #[trigger] fits(tasks@, m2, total_resources) ==> score(
                        tasks@,
                        m2,
                    ) < best_score
            },
            mask == 0 ==> best_score == i32::MIN,
        decreases limit - mask,
    {
        let mut total_res: u64 = 0;
        let mut subset_score: i32 = 0;
        let mut selected: Vec<usize> = Vec::new();
        let mut i: usize = 0;
        while i < n
            invariant
                n == tasks@.len(),
                n < 32,
                i <= n,
                total_need(tasks@) <= u64::MAX,
                total_res == chosen_need(tasks@, mask, i as nat),
                subset_score == chosen_score(tasks@, mask, i as nat),
                selected@ == chosen_ids(tasks@, mask, i as nat),
            decreases n - i,
        {
            proof {
                lemma_chosen_need_bounded(tasks@, mask, (i + 1) as nat);
                lemma_total_need_prefix(tasks@, (i + 1) as nat);
                lemma_chosen_score_bounded(tasks@, mask, i as nat);
            }
            if mask & (1u32 << (i as u32)) != 0 {
                total_res += tasks[i].resource_need;
                subset_score += tasks[i].priority.value();
                selected.push(tasks[i].id);
            }
            i += 1;
        }
        proof {
            lemma_chosen_score_bounded(tasks@, mask, n as nat);
            lemma_empty_mask(tasks@, n as nat);
            assert(fits(tasks@, mask, total_resources) == (total_res <= total_resources));
            assert(score(tasks@, mask) == subset_score);
        }
        if total_res <= total_resources && subset_score > best_score {
            best_score = subset_score;
            best_set = selected;
            proof {
                best_mask = mask;
            }
        }
        mask += 1;
    }
    proof {
        assert(is_best_mask(tasks@, total_resources, best_mask));
        law_chosen_ids_are_ids(tasks@, best_mask, n as nat);
        assert forall|j: int| #![trigger best_set@[j]] 0 <= j < best_set@.len() implies exists|i: int|
            #![trigger tasks@[i]]
            0 <= i < tasks@.len() && best_set@[j] == tasks@[i].id by {
            assert(best_set@[j] == chosen_ids(tasks@, best_mask, n as nat)[j]);
            let i = choose|i: int|
                #![trigger tasks@[i]]
                0 <= i < n && bit_set(best_mask, i) && chosen_ids(tasks@, best_mask, n as nat)[j]
                    == tasks@[i].id;
            assert(best_set@[j] == tasks@[i].id);
        }
    }
    best_set
}

/// The summed priority of the tasks.
pub open spec fn total_priority(tasks: Seq<TernaryTask>) -> int
    decreases tasks.len(),
{
    if tasks.len() == 0 {
        0
    } else {
        total_priority(tasks.drop_last()) + tasks.last().priority.numeric()
    }
}

/// The tasks among the first `k` that `mask` picks, in task order.
pub open spec fn chosen_tasks(tasks: Seq<TernaryTask>, mask: u32, k: nat) -> Seq<TernaryTask>
    decreases k,
{
    if k == 0 {
        Seq::empty()
    } else {
        let prev = chosen_tasks(tasks, mask, (k - 1) as nat);
        if bit_set(mask, k - 1) {
            prev.push(tasks[k - 1])
        } else {
            prev
        }
    }
}

/// A sum over the tasks, of the weight `w` of each.
spec fn weighted(s: Seq<TernaryTask>, w: spec_fn(TernaryTask) -> int) -> int
    decreases s.len(),
{
    if s.len() == 0 {
        0
    } else {
        weighted(s.drop_last(), w) + w(s.last())
    }
}

spec fn need_weight() -> spec_fn(TernaryTask) -> int {
    |t: TernaryTask| t.resource_need as int
}

spec fn priority_weight() -> spec_fn(TernaryTask) -> int {
    |t: TernaryTask| t.priority.numeric() as int
}

proof fn lemma_weighted_sums(s: Seq<TernaryTask>)
    ensures
        total_need(s) == weighted(s, need_weight()),
        total_priority(s) == weighted(s, priority_weight()),
    decreases s.len(),
{
    if s.len() > 0 {
        lemma_weighted_sums(s.drop_last());
    }
}

proof fn lemma_weighted_remove(s: Seq<TernaryTask>, i: int, w: spec_fn(TernaryTask) -> int)
    requires
        0 <= i < s.len(),
    ensures
        weighted(s, w) == weighted(s.remove(i), w) + w(s[i]),
    decreases s.len(),
{
    if i == s.len() - 1 {
        assert(s.remove(i) =~= s.drop_last());
    } else {
        lemma_weighted_remove(s.drop_last(), i, w);
        assert(s.remove(i).drop_last() =~= s.drop_last().remove(i));
        assert(s.remove(i).last() == s.last());
    }
}

/// Sums depend only on which tasks are summed, each as often as it occurs.
proof fn lemma_weighted_multiset(a: Seq<TernaryTask>, b: Seq<TernaryTask>, w: spec_fn(TernaryTask) -> int)
    requires
        a.to_multiset() =~= b.to_multiset(),
    ensures
        weighted(a, w) == weighted(b, w),
    decreases a.len(),
{
    broadcast use vstd::seq_lib::group_to_multiset_ensures;

    if a.len() == 0 {
        assert(a.to_multiset().len() == 0);
        assert(b.to_multiset().len() == b.len());
        assert(b.len() == 0);
    } else {
        let x = a.last();
        let a2 = a.drop_last();
        assert(a =~= a2.push(x));
        assert(b.to_multiset().count(x) > 0);
        assert(b.contains(x));
        let i = choose|i: int| 0 <= i < b.len() && b[i] == x;
        let b2 = b.remove(i);
        assert(a2.to_multiset() =~= b2.to_multiset()) by {
            assert(a.to_multiset() =~= a2.to_multiset().insert(x));
            assert(b2.to_multiset() =~= b.to_multiset().remove(x));
        }
        lemma_weighted_multiset(a2, b2, w);
        lemma_weighted_remove(b, i, w);
    }
}

proof fn lemma_chosen_sums(tasks: Seq<TernaryTask>, mask: u32, k: nat)
    requires
        k <= tasks.len(),
    ensures
        chosen_need(tasks, mask, k) == total_need(chosen_tasks(tasks, mask, k)),
        chosen_score(tasks, mask, k) == total_priority(chosen_tasks(tasks, mask, k)),
    decreases k,
{
    if k > 0 {
        lemma_chosen_sums(tasks, mask, (k - 1) as nat);
        let prev = chosen_tasks(tasks, mask, (k - 1) as nat);
        assert(prev.push(tasks[k - 1]).drop_last() =~= prev);
    }
}

/// Masks that agree on the bits below `k` pick the same tasks among the first `k`.
proof fn lemma_same_low_bits(tasks: Seq<TernaryTask>, m1: u32, m2: u32, k: nat)
    requires
        forall|i: int| 0 <= i < k ==> bit_set(m1, i) == bit_set(m2, i),
    ensures
        chosen_tasks(tasks, m1, k) == chosen_tasks(tasks, m2, k),
    decreases k,
{
    if k > 0 {
        lemma_same_low_bits(tasks, m1, m2, (k - 1) as nat);
    }
}

proof fn lemma_bit_of_or(m: u32, i: u32, j: u32)
    by (bit_vector)
    requires
        i < 32,
        j < 32,
    ensures
        ((m | (1u32 << j)) & (1u32 << j)) != 0u32,
        i != j ==> ((((m | (1u32 << j)) & (1u32 << i)) != 0u32) == ((m & (1u32 << i)) != 0u32)),
{
}

proof fn lemma_bit_above(m: u32, j: u32, s: u32)
    by (bit_vector)
    requires
        j < 31,
        s == j + 1,
        m < (1u32 << j),
    ensures
        (m & (1u32 << j)) == 0u32,
        m < (1u32 << s),
        (m | (1u32 << j)) < (1u32 << s),
{
}

proof fn lemma_empty_limit()
    by (bit_vector)
    ensures
        0u32 < (1u32 << 0u32),
{
}

/// Every sub-multiset of the first `k` tasks is what some mask below `1 << k` picks.
proof fn lemma_mask_for(tasks: Seq<TernaryTask>, want: Multiset<TernaryTask>, k: nat) -> (m: u32)
    requires
        k <= tasks.len() < 32,
        want.subset_of(tasks.take(k as int).to_multiset()),
    ensures
        m < mask_limit(k),
        chosen_tasks(tasks, m, k).to_multiset() =~= want,
    decreases k,
{
    broadcast use vstd::seq_lib::group_to_multiset_ensures;

    if k == 0 {
        lemma_empty_limit();
        assert(tasks.take(0).to_multiset() =~= Multiset::empty());
        assert(want =~= Multiset::empty());
        0u32
    } else {
        let x = tasks[k - 1];
        let j = (k - 1) as u32;
        let s = k as u32;
        assert(tasks.take(k as int) =~= tasks.take(k - 1).push(x));
        let rest = tasks.take(k - 1).to_multiset();
        assert(tasks.take(k as int).to_multiset() =~= rest.insert(x));
        if want.count(x) > 0 {
            let w2 = want.remove(x);
            assert(w2.subset_of(rest));
            let m2 = lemma_mask_for(tasks, w2, (k - 1) as nat);
            let m = m2 | (1u32 << j);
            lemma_bit_above(m2, j, s);
            assert forall|i: int| 0 <= i < k - 1 implies bit_set(m, i) == bit_set(m2, i) by {
                lemma_bit_of_or(m2, i as u32, j);
            }
            lemma_bit_of_or(m2, j, j);
            lemma_same_low_bits(tasks, m, m2, (k - 1) as nat);
            assert(bit_set(m, k - 1));
            assert(chosen_tasks(tasks, m, k) == chosen_tasks(tasks, m2, (k - 1) as nat).push(x));
            assert(w2.insert(x) =~= want);
            m
        } else {
            assert(want.subset_of(rest));
            let m2 = lemma_mask_for(tasks, want, (k - 1) as nat);
            lemma_bit_above(m2, j, s);
            assert(!bit_set(m2, k - 1));
            m2
        }
    }
}

/// What the greedy pass keeps is taken from what it was offered.
proof fn lemma_allocate_in_order_picks_from(tasks: Seq<TernaryTask>, r: ResourceAllocation)
    ensures
        allocate_in_order(tasks, r).0.to_multiset().subset_of(tasks.to_multiset()),
    decreases tasks.len(),
{
    broadcast use vstd::seq_lib::group_to_multiset_ensures;

    if tasks.len() > 0 {
        lemma_allocate_in_order_picks_from(tasks.drop_last(), r);
        assert(tasks =~= tasks.drop_last().push(tasks.last()));
    }
}

/// Law: the brute-force optimum is never worse than the greedy answer: the subset that
/// `csp_solve` returns has at least the total priority of the tasks `greedy_solve` picks.
pub proof fn law_csp_at_least_greedy(tasks: Seq<TernaryTask>, budget: u64, best: u32)
    requires
        tasks.len() < 32,
        is_best_mask(tasks, budget, best),
    ensures
        score(tasks, best) >= total_priority(
            allocate_in_order(
                priority_order(tasks),
                ResourceAllocation { total: budget, allocated: 0, constraint: TritAction::Zero },
            ).0,
        ),
{
    let fresh = ResourceAllocation { total: budget, allocated: 0, constraint: TritAction::Zero };
    let picked = allocate_in_order(priority_order(tasks), fresh).0;
    let n = tasks.len();
    law_greedy_within_budget(tasks, budget);
    lemma_allocate_in_order_picks_from(priority_order(tasks), fresh);
    law_priority_order_permutes(tasks);
    assert(tasks.take(n as int) =~= tasks);
    let m = lemma_mask_for(tasks, picked.to_multiset(), n);
    let chosen = chosen_tasks(tasks, m, n);
    lemma_chosen_sums(tasks, m, n);
    lemma_weighted_sums(chosen);
    lemma_weighted_sums(picked);
    lemma_weighted_multiset(chosen, picked, need_weight());
    lemma_weighted_multiset(chosen, picked, priority_weight());
    assert(fits(tasks, m, budget));
}

/// Law: a mask's result lists the ids of the tasks it picks, in task order: each entry is
/// the `id` field of a picked task, never a position.
pub proof fn law_chosen_ids_are_ids(tasks: Seq<TernaryTask>, mask: u32, k: nat)
    requires
        k <= tasks.len(),
    ensures
        chosen_ids(tasks, mask, k) == chosen_tasks(tasks, mask, k).map_values(|t: TernaryTask| t.id),
        forall|j: int|
            #![trigger chosen_ids(tasks, mask, k)[j]]
            0 <= j < chosen_ids(tasks, mask, k).len() ==> exists|i: int|
                #![trigger tasks[i]]
                0 <= i < k && bit_set(mask, i) && chosen_ids(tasks, mask, k)[j] == tasks[i].id,
    decreases k,
{
    if k > 0 {
        law_chosen_ids_are_ids(tasks, mask, (k - 1) as nat);
        let prev_ids = chosen_ids(tasks, mask, (k - 1) as nat);
        let prev_tasks = chosen_tasks(tasks, mask, (k - 1) as nat);
        let cur = chosen_ids(tasks, mask, k);
        if bit_set(mask, k - 1) {
            assert(prev_tasks.push(tasks[k - 1]).map_values(|t: TernaryTask| t.id) =~= prev_ids.push(
                tasks[k - 1].id,
            ));
        }
        assert forall|j: int| #![trigger cur[j]] 0 <= j < cur.len() implies exists|i: int|
            #![trigger tasks[i]]
            0 <= i < k && bit_set(mask, i) && cur[j] == tasks[i].id by {
            if j < prev_ids.len() {
                assert(cur[j] == prev_ids[j]);
                let i = choose|i: int|
                    #![trigger tasks[i]]
                    0 <= i < k - 1 && bit_set(mask, i) && prev_ids[j] == tasks[i].id;
                assert(0 <= i < k && bit_set(mask, i) && cur[j] == tasks[i].id);
            } else {
                let i = k - 1;
                assert(0 <= i < k && bit_set(mask, i) && cur[j] == tasks[i].id);
            }
        }
    }
}

} // verus!
