use vstd::prelude::*;

use crate::resource::{reserve_of, ResourceAllocation};
use crate::task::TernaryTask;
use crate::trit::TritAction;

verus! {

/// The predicate "has priority `p`".
pub open spec fn has_priority(p: TritAction) -> spec_fn(TernaryTask) -> bool {
    |t: TernaryTask| t.priority == p
}

/// The tasks in priority order: all `Positive` ones, then the `Zero` ones, then the
/// `Negative` ones, each group in the order the tasks were given.
pub open spec fn priority_order(tasks: Seq<TernaryTask>) -> Seq<TernaryTask> {
    tasks.filter(has_priority(TritAction::Positive)) + tasks.filter(has_priority(TritAction::Zero))
        + tasks.filter(has_priority(TritAction::Negative))
}

/// Offers the tasks, in order, to an allocator: a task is admitted when its need can be
/// allocated.  Gives the admitted tasks and the allocator afterwards.
pub open spec fn allocate_in_order(tasks: Seq<TernaryTask>, r: ResourceAllocation) -> (Seq<TernaryTask>, ResourceAllocation)
    decreases tasks.len(),
{
    if tasks.len() == 0 {
        (Seq::empty(), r)
    } else {
        let prev = allocate_in_order(tasks.drop_last(), r);
        let t = tasks.last();
        if t.resource_need <= prev.1.allowance() {
            (prev.0.push(t), prev.1.after_allocating(t.resource_need))
        } else {
            prev
        }
    }
}

/// The sum of the resource needs of the tasks.
pub open spec fn total_need(tasks: Seq<TernaryTask>) -> int
    decreases tasks.len(),
{
    if tasks.len() == 0 {
        0
    } else {
        total_need(tasks.drop_last()) + tasks.last().resource_need
    }
}

/// Priority-based scheduler.
pub struct PriorityScheduler {
    tasks: Vec<TernaryTask>,
}

impl View for PriorityScheduler {
    type V = Seq<TernaryTask>;

    /// The tasks, in the order they were added.
    closed spec fn view(&self) -> Seq<TernaryTask> {
        self.tasks@
    }
}

/// Appends to `out`, in order, the tasks of priority `p`.
fn append_with_priority<'a>(tasks: &'a [TernaryTask], p: TritAction, out: &mut Vec<&'a TernaryTask>)
    ensures
        final(out)@.unref() == old(out)@.unref() + tasks@.filter(has_priority(p)),
{
    let ghost base = out@.unref();
    let mut k: usize = 0;
    proof {
        assert(tasks@.take(0).filter(has_priority(p)) =~= Seq::<TernaryTask>::empty());
        assert(out@.unref() =~= base + tasks@.take(0).filter(has_priority(p)));
    }
    while k < tasks.len()
        invariant
            k <= tasks@.len(),
            out@.unref() == base + tasks@.take(k as int).filter(has_priority(p)),
        decreases tasks@.len() - k,
    {
        let ghost before = out@;
        proof {
            assert(tasks@.take(k + 1) =~= tasks@.take(k as int).push(tasks@[k as int]));
            tasks@.take(k as int).lemma_filter_push(tasks@[k as int], has_priority(p));
        }
        if tasks[k].priority == p {
            out.push(&tasks[k]);
            proof {
                assert(out@.unref() =~= before.unref().push(tasks@[k as int]));
            }
        }
        k += 1;
    }
    proof {
        assert(tasks@.take(k as int) =~= tasks@);
    }
}

/// References to the tasks in priority order.
fn sorted_by_priority<'a>(tasks: &'a [TernaryTask]) -> (sorted: Vec<&'a TernaryTask>)
    ensures
        sorted@.unref() == priority_order(tasks@),
{
    let mut sorted: Vec<&'a TernaryTask> = Vec::new();
    proof {
        assert(sorted@.unref() =~= Seq::<TernaryTask>::empty());
    }
    append_with_priority(tasks, TritAction::Positive, &mut sorted);
    append_with_priority(tasks, TritAction::Zero, &mut sorted);
    append_with_priority(tasks, TritAction::Negative, &mut sorted);
    proof {
        assert(sorted@.unref() =~= priority_order(tasks@));
    }
    sorted
}

/// Offers the tasks, in order, to `resource`; keeps those it could allocate for.
fn allocate_each<'a>(sorted: &Vec<&'a TernaryTask>, resource: &mut ResourceAllocation) -> (admitted:
    Vec<&'a TernaryTask>)
    ensures
        (admitted@.unref(), *final(resource)) == allocate_in_order(sorted@.unref(), *old(resource)),
{
    let mut admitted: Vec<&'a TernaryTask> = Vec::new();
    let ghost all = sorted@.unref();
    let mut k: usize = 0;
    proof {
        assert(all.take(0) =~= Seq::<TernaryTask>::empty());
        assert(admitted@.unref() =~= Seq::<TernaryTask>::empty());
    }
    while k < sorted.len()
        invariant
            k <= sorted@.len(),
            all == sorted@.unref(),
            (admitted@.unref(), *resource) == allocate_in_order(all.take(k as int), *old(resource)),
        decreases sorted@.len() - k,
    {
        let task = sorted[k];
        let ghost before = admitted@;
        proof {
            assert(all.take(k + 1).drop_last() =~= all.take(k as int));
            assert(all.take(k + 1).last() == *task);
        }
        if resource.allocate(task.resource_need) {
            admitted.push(task);
            proof {
                assert(admitted@.unref() =~= before.unref().push(*task));
            }
        }
        k += 1;
    }
    proof {
        assert(all.take(k as int) =~= all);
    }
    admitted
}

impl PriorityScheduler {
    pub fn new() -> (s: Self)
        ensures
            s@ == Seq::<TernaryTask>::empty(),
    {
        PriorityScheduler { tasks: Vec::new() }
    }

    pub fn add_task(&mut self, task: TernaryTask)
        ensures
            final(self)@ == old(self)@.push(task),
    {
        self.tasks.push(task);
    }

    /// Schedule tasks in priority order (Positive first, then Zero, then Negative).
    pub fn schedule(&self) -> (order: Vec<&TernaryTask>)
        ensures
            order@.unref() == priority_order(self@),
    {
        sorted_by_priority(self.tasks.as_slice())
    }

    /// Schedule with resource constraints.
    pub fn schedule_with_resources(&self, resource: &mut ResourceAllocation) -> (admitted: Vec<
        &TernaryTask,
    >)
        ensures
            admitted@.unref() == allocate_in_order(priority_order(self@), *old(resource)).0,
            *final(resource) == allocate_in_order(priority_order(self@), *old(resource)).1,
            final(resource).total == old(resource).total,
            final(resource).constraint == old(resource).constraint,
            old(resource).free() >= reserve_of(old(resource).total, old(resource).constraint)
                ==> final(resource).free() >= reserve_of(old(resource).total, old(resource).constraint),
    {
        let sorted = self.schedule();
        proof {
            law_scheduling_keeps_reserve(priority_order(self@), *resource);
        }
        allocate_each(&sorted, resource)
    }
}

/// Greedy solver: picks highest priority first, respecting resources.
pub fn greedy_solve(tasks: &[TernaryTask], total_resources: u64) -> (ids: Vec<usize>)
    ensures
        ids@ == allocate_in_order(
            priority_order(tasks@),
            ResourceAllocation { total: total_resources, allocated: 0, constraint: TritAction::Zero },
        ).0.map_values(|t: TernaryTask| t.id),
{
    let mut resource = ResourceAllocation::new(total_resources, TritAction::Zero);
    let sorted = sorted_by_priority(tasks);
    let admitted = allocate_each(&sorted, &mut resource);
    let mut ids: Vec<usize> = Vec::new();
    let mut k: usize = 0;
    while k < admitted.len()
        invariant
            k <= admitted@.len(),
            ids@ == admitted@.unref().take(k as int).map_values(|t: TernaryTask| t.id),
        decreases admitted@.len() - k,
    {
        ids.push(admitted[k].id);
        proof {
            assert(admitted@.unref().take(k + 1) =~= admitted@.unref().take(k as int).push(
                admitted@.unref()[k as int],
            ));
            assert(ids@ =~= admitted@.unref().take(k + 1).map_values(|t: TernaryTask| t.id));
        }
        k += 1;
    }
    proof {
        assert(admitted@.unref().take(k as int) =~= admitted@.unref());
    }
    ids
}

/// Each entry of the priority order, by position: the `Positive` block, then `Zero`, then
/// `Negative`.
proof fn lemma_priority_order_levels(tasks: Seq<TernaryTask>)
    ensures
        forall|k: int|
            0 <= k < priority_order(tasks).len() ==> (#[trigger] priority_order(tasks)[k]).priority
                == (if k < tasks.filter(has_priority(TritAction::Positive)).len() {
                TritAction::Positive
            } else if k < tasks.filter(has_priority(TritAction::Positive)).len() + tasks.filter(
                has_priority(TritAction::Zero),
            ).len() {
                TritAction::Zero
            } else {
                TritAction::Negative
            }),
{
    let a = tasks.filter(has_priority(TritAction::Positive));
    let b = tasks.filter(has_priority(TritAction::Zero));
    let c = tasks.filter(has_priority(TritAction::Negative));
    let po = priority_order(tasks);
    assert forall|k: int| 0 <= k < po.len() implies (#[trigger] po[k]).priority == (if k < a.len() {
        TritAction::Positive
    } else if k < a.len() + b.len() {
        TritAction::Zero
    } else {
        TritAction::Negative
    }) by {
        if k < a.len() {
            tasks.lemma_filter_pred(has_priority(TritAction::Positive), k);
            assert(po[k] == a[k]);
        } else if k < a.len() + b.len() {
            tasks.lemma_filter_pred(has_priority(TritAction::Zero), k - a.len());
            assert(po[k] == b[k - a.len()]);
        } else {
            tasks.lemma_filter_pred(has_priority(TritAction::Negative), k - a.len() - b.len());
            assert(po[k] == c[k - a.len() - b.len()]);
        }
    }
}

/// Law: the priority order never puts a task before one of higher priority.
pub proof fn law_priority_order_sorted(tasks: Seq<TernaryTask>)
    ensures
        forall|i: int, j: int|
            #![trigger priority_order(tasks)[i], priority_order(tasks)[j]]
            0 <= i <= j < priority_order(tasks).len() ==> priority_order(tasks)[i].priority.numeric()
                >= priority_order(tasks)[j].priority.numeric(),
{
    lemma_priority_order_levels(tasks);
}

/// Where a task of priority `p` goes in the priority order of `tasks`: after every task of
/// equal or higher priority, before every task of lower priority.
pub open spec fn slot_for(tasks: Seq<TernaryTask>, p: TritAction) -> int {
    let a = tasks.filter(has_priority(TritAction::Positive)).len();
    let b = tasks.filter(has_priority(TritAction::Zero)).len();
    let c = tasks.filter(has_priority(TritAction::Negative)).len();
    match p {
        TritAction::Positive => a as int,
        TritAction::Zero => (a + b) as int,
        TritAction::Negative => (a + b + c) as int,
    }
}

/// Law: adding a task puts it into the schedule right after the last task of equal or
/// higher priority; the other tasks keep their order.
pub proof fn law_add_task_inserts_in_place(tasks: Seq<TernaryTask>, t: TernaryTask)
    ensures
        priority_order(tasks.push(t)) == priority_order(tasks).insert(slot_for(tasks, t.priority), t),
        forall|i: int|
            0 <= i < slot_for(tasks, t.priority) ==> (#[trigger] priority_order(tasks)[i]).priority.numeric()
                >= t.priority.numeric(),
        forall|i: int|
            slot_for(tasks, t.priority) <= i < priority_order(tasks).len() ==> (
            #[trigger] priority_order(tasks)[i]).priority.numeric() < t.priority.numeric(),
{
    let pos = has_priority(TritAction::Positive);
    let zero = has_priority(TritAction::Zero);
    let neg = has_priority(TritAction::Negative);
    tasks.lemma_filter_push(t, pos);
    tasks.lemma_filter_push(t, zero);
    tasks.lemma_filter_push(t, neg);
    lemma_priority_order_levels(tasks);
    let (a, b, c) = (tasks.filter(pos), tasks.filter(zero), tasks.filter(neg));
    let po = priority_order(tasks);
    assert(po == a + b + c);
    match t.priority {
        TritAction::Positive => {
            assert(priority_order(tasks.push(t)) =~= po.insert(a.len() as int, t));
        },
        TritAction::Zero => {
            assert(priority_order(tasks.push(t)) =~= po.insert((a.len() + b.len()) as int, t));
        },
        TritAction::Negative => {
            assert(priority_order(tasks.push(t)) =~= po.insert((a.len() + b.len() + c.len()) as int, t));
        },
    }
}

/// Law: the priority order holds exactly the given tasks, each as often as given.
pub proof fn law_priority_order_permutes(tasks: Seq<TernaryTask>)
    ensures
        priority_order(tasks).to_multiset() =~= tasks.to_multiset(),
    decreases tasks.len(),
{
    broadcast use vstd::seq_lib::group_to_multiset_ensures, vstd::seq_lib::lemma_multiset_commutative;

    let pos = has_priority(TritAction::Positive);
    let zero = has_priority(TritAction::Zero);
    let neg = has_priority(TritAction::Negative);
    if tasks.len() == 0 {
        assert(priority_order(tasks) =~= Seq::<TernaryTask>::empty());
    } else {
        let s = tasks.drop_last();
        let x = tasks.last();
        law_priority_order_permutes(s);
        assert(tasks =~= s.push(x));
        s.lemma_filter_push(x, pos);
        s.lemma_filter_push(x, zero);
        s.lemma_filter_push(x, neg);
        let (a, b, c) = (s.filter(pos), s.filter(zero), s.filter(neg));
        assert(priority_order(s).to_multiset() =~= a.to_multiset().add(b.to_multiset()).add(
            c.to_multiset(),
        )) by {
            assert(priority_order(s) == (a + b) + c);
        }
        let (a2, b2, c2) = (tasks.filter(pos), tasks.filter(zero), tasks.filter(neg));
        assert(priority_order(tasks).to_multiset() =~= a2.to_multiset().add(b2.to_multiset()).add(
            c2.to_multiset(),
        )) by {
            assert(priority_order(tasks) == (a2 + b2) + c2);
        }
        match x.priority {
            TritAction::Positive => {
                assert(a2 == a.push(x) && b2 == b && c2 == c);
            },
            TritAction::Zero => {
                assert(a2 == a && b2 == b.push(x) && c2 == c);
            },
            TritAction::Negative => {
                assert(a2 == a && b2 == b && c2 == c.push(x));
            },
        }
    }
}

/// Law: offering tasks in order to an allocator allocates exactly the needs of the
/// admitted tasks, and never more than the total when it starts within the total.
pub proof fn law_allocate_in_order_accounts(tasks: Seq<TernaryTask>, r: ResourceAllocation)
    ensures
        allocate_in_order(tasks, r).1.total == r.total,
        allocate_in_order(tasks, r).1.constraint == r.constraint,
        allocate_in_order(tasks, r).1.allocated == r.allocated + total_need(
            allocate_in_order(tasks, r).0,
        ),
        r.allocated <= r.total ==> allocate_in_order(tasks, r).1.allocated <= r.total,
    decreases tasks.len(),
{
    if tasks.len() > 0 {
        law_allocate_in_order_accounts(tasks.drop_last(), r);
        let prev = allocate_in_order(tasks.drop_last(), r);
        let t = tasks.last();
        if t.resource_need <= prev.1.allowance() {
            assert(prev.0.push(t).drop_last() =~= prev.0);
        }
    }
}

/// Law: the tasks that the greedy solver picks need no more, together, than the budget.
pub proof fn law_greedy_within_budget(tasks: Seq<TernaryTask>, total_resources: u64)
    ensures
        total_need(
            allocate_in_order(
                priority_order(tasks),
                ResourceAllocation {
                    total: total_resources,
                    allocated: 0,
                    constraint: TritAction::Zero,
                },
            ).0,
        ) <= total_resources,
{
    law_allocate_in_order_accounts(
        priority_order(tasks),
        ResourceAllocation { total: total_resources, allocated: 0, constraint: TritAction::Zero },
    );
}

/// Law: offering one more task after `s` admits it exactly when its need is at most what
/// the pool would still allocate after the earlier tasks (its `allowance()`), whatever
/// happened to the earlier tasks; an admitted task is allocated, a refused one changes nothing.
pub proof fn law_allocate_in_order_step(s: Seq<TernaryTask>, t: TernaryTask, r: ResourceAllocation)
    ensures
        ({
            let (picked, pool) = allocate_in_order(s, r);
            &&& t.resource_need <= pool.allowance() ==> allocate_in_order(s.push(t), r) == (
            picked.push(t), pool.after_allocating(t.resource_need))
            &&& t.resource_need > pool.allowance() ==> allocate_in_order(s.push(t), r) == (
            picked, pool)
        }),
{
    assert(s.push(t).drop_last() =~= s);
}

/// Law: scheduling against a pool never eats into its reserve: if the pool starts with at
/// least its reserve free, it still has it free afterwards, and its total and constraint
/// are unchanged.
pub proof fn law_scheduling_keeps_reserve(s: Seq<TernaryTask>, r: ResourceAllocation)
    ensures
        allocate_in_order(s, r).1.total == r.total,
        allocate_in_order(s, r).1.constraint == r.constraint,
        r.free() >= reserve_of(r.total, r.constraint) ==> allocate_in_order(s, r).1.free()
            >= reserve_of(r.total, r.constraint),
    decreases s.len(),
{
    if s.len() > 0 {
        law_scheduling_keeps_reserve(s.drop_last(), r);
    }
}

} // verus!
