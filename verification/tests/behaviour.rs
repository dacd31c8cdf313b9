use ternary_planning::{
    csp_solve, greedy_solve, PlanGraph, PriorityScheduler, ResourceAllocation, TernaryTask,
    TritAction,
};

fn task(id: usize, priority: TritAction, need: u64) -> TernaryTask {
    TernaryTask::new(id, "t", priority, 1, need)
}

#[test]
fn trit_round_trip() {
    for t in [TritAction::Negative, TritAction::Zero, TritAction::Positive] {
        assert_eq!(TritAction::from_i32(t.value()), Some(t));
    }
    assert_eq!(TritAction::from_i32(-2), None);
    assert_eq!(TritAction::from_i32(i32::MAX), None);
    assert_eq!(TritAction::from_i32(i32::MIN), None);
}

#[test]
fn positive_reserve_is_thirty_percent_rounded_down() {
    let mut r = ResourceAllocation::new(10, TritAction::Positive);
    assert!(!r.allocate(8));
    assert!(r.allocate(7));
    assert_eq!(r.available(), 3);

    let mut r = ResourceAllocation::new(7, TritAction::Positive);
    assert!(!r.allocate(6));
    assert!(r.allocate(5));
    assert_eq!(r.allocated, 5);
}

#[test]
fn positive_reserve_on_large_total() {
    let mut r = ResourceAllocation::new(u64::MAX, TritAction::Positive);
    // 30% of u64::MAX rounded down is 5534023222112865484.
    assert!(!r.allocate(u64::MAX - 5534023222112865484 + 1));
    assert!(r.allocate(u64::MAX - 5534023222112865484));
    assert_eq!(r.available(), 5534023222112865484);
}

#[test]
fn failed_allocation_changes_nothing() {
    let mut r = ResourceAllocation::new(20, TritAction::Zero);
    assert!(r.allocate(15));
    assert!(!r.allocate(6));
    assert_eq!(r.allocated, 15);
    assert_eq!(r.total, 20);
}

#[test]
fn release_undoes_allocate() {
    let mut r = ResourceAllocation::new(50, TritAction::Negative);
    assert!(r.allocate(20));
    r.release(20);
    assert_eq!(r.allocated, 0);
    assert_eq!(r.available(), 50);
}

#[test]
fn release_saturates_at_zero() {
    let mut r = ResourceAllocation::new(50, TritAction::Zero);
    assert!(r.allocate(10));
    r.release(40);
    assert_eq!(r.allocated, 0);
}

#[test]
fn available_is_zero_when_over_allocated() {
    let r = ResourceAllocation { total: 5, allocated: 9, constraint: TritAction::Zero };
    assert_eq!(r.available(), 0);
    let mut r = r;
    assert!(r.allocate(0));
    assert!(!r.allocate(1));
}

#[test]
fn schedule_is_stable_and_sorted() {
    let mut s = PriorityScheduler::new();
    s.add_task(task(0, TritAction::Zero, 1));
    s.add_task(task(1, TritAction::Positive, 1));
    s.add_task(task(2, TritAction::Negative, 1));
    s.add_task(task(3, TritAction::Positive, 1));
    s.add_task(task(4, TritAction::Zero, 1));
    let order = s.schedule();
    let ids: Vec<usize> = order.iter().map(|t| t.id).collect();
    assert_eq!(ids, vec![1, 3, 0, 4, 2]);
    for w in order.windows(2) {
        assert!(w[0].priority.value() >= w[1].priority.value());
    }
}

#[test]
fn schedule_with_positive_constraint_keeps_reserve() {
    let mut s = PriorityScheduler::new();
    s.add_task(task(0, TritAction::Positive, 50));
    s.add_task(task(1, TritAction::Zero, 30));
    s.add_task(task(2, TritAction::Negative, 20));
    let mut res = ResourceAllocation::new(100, TritAction::Positive);
    let ids: Vec<usize> = s.schedule_with_resources(&mut res).iter().map(|t| t.id).collect();
    assert_eq!(ids, vec![0, 2]);
    assert_eq!(res.allocated, 70);
    assert!(res.available() >= 30);
}

#[test]
fn greedy_takes_priority_order_within_budget() {
    let tasks = vec![
        task(0, TritAction::Negative, 10),
        task(1, TritAction::Positive, 30),
        task(2, TritAction::Zero, 20),
    ];
    assert_eq!(greedy_solve(&tasks, 60), vec![1, 2, 0]);
    assert_eq!(greedy_solve(&tasks, 45), vec![1, 0]);
    assert_eq!(greedy_solve(&tasks, 29), vec![2]);
}

#[test]
fn csp_picks_first_best_subset() {
    let tasks = vec![
        task(0, TritAction::Positive, 60),
        task(1, TritAction::Positive, 60),
        task(2, TritAction::Negative, 10),
    ];
    assert_eq!(csp_solve(&tasks, 70), vec![0]);
}

#[test]
fn csp_beats_greedy_on_packing() {
    let tasks = vec![
        task(0, TritAction::Positive, 50),
        task(1, TritAction::Positive, 30),
        task(2, TritAction::Positive, 30),
    ];
    assert_eq!(greedy_solve(&tasks, 60), vec![0]);
    assert_eq!(csp_solve(&tasks, 60), vec![1, 2]);
}

#[test]
fn csp_leaves_out_negative_tasks() {
    let tasks = vec![task(0, TritAction::Negative, 0), task(1, TritAction::Zero, 0)];
    assert_eq!(csp_solve(&tasks, 0), Vec::<usize>::new());
}

#[test]
fn add_task_assigns_ids_and_get_reads_back() {
    let mut g = PlanGraph::new();
    let a = g.add_task(TernaryTask::new(7, "first", TritAction::Zero, 3, 4), vec![]);
    let b = g.add_task(TernaryTask::new(7, "second", TritAction::Negative, 5, 6), vec![a, 42]);
    assert_eq!((a, b), (0, 1));
    let node = g.get(b).unwrap();
    assert_eq!(node.task.id, 1);
    assert_eq!(node.task.name, "second");
    assert_eq!(node.task.priority, TritAction::Negative);
    assert_eq!(node.task.duration, 5);
    assert_eq!(node.task.resource_need, 6);
    assert_eq!(node.dependencies, vec![0, 42]);
    assert_eq!(g.get(a).unwrap().task.name, "first");
    assert!(g.get(2).is_none());
}

#[test]
fn add_dependency_on_missing_node_is_refused() {
    let mut g = PlanGraph::new();
    g.add_task(task(0, TritAction::Zero, 1), vec![]);
    assert!(!g.add_dependency(5, 0));
    assert!(g.add_dependency(0, 3));
    assert_eq!(g.get(0).unwrap().dependencies, vec![3]);
}

#[test]
fn topological_order_of_chain() {
    let mut g = PlanGraph::new();
    let c = g.add_task(task(0, TritAction::Zero, 1), vec![1]);
    let b = g.add_task(task(0, TritAction::Zero, 1), vec![2]);
    let a = g.add_task(task(0, TritAction::Zero, 1), vec![]);
    assert_eq!(g.topological_order(), Some(vec![a, b, c]));
}

#[test]
fn topological_order_puts_dependencies_first() {
    let mut g = PlanGraph::new();
    g.add_task(task(0, TritAction::Zero, 1), vec![3, 1]);
    g.add_task(task(0, TritAction::Zero, 1), vec![2]);
    g.add_task(task(0, TritAction::Zero, 1), vec![]);
    g.add_task(task(0, TritAction::Zero, 1), vec![2]);
    let order = g.topological_order().unwrap();
    assert_eq!(order.len(), 4);
    let pos = |x: usize| order.iter().position(|&y| y == x).unwrap();
    for node in 0..4 {
        for &dep in &g.get(node).unwrap().dependencies {
            assert!(pos(dep) < pos(node));
        }
    }
}

#[test]
fn cycle_fails_sort_and_is_reported() {
    let mut g = PlanGraph::new();
    g.add_task(task(0, TritAction::Zero, 1), vec![2]);
    g.add_task(task(0, TritAction::Zero, 1), vec![0]);
    g.add_task(task(0, TritAction::Zero, 1), vec![1]);
    g.add_task(task(0, TritAction::Zero, 1), vec![0]);
    assert_eq!(g.topological_order(), None);
    let conflicts = g.detect_conflicts();
    assert_eq!(conflicts.len(), 1);
    let (a, b) = conflicts[0];
    assert!(a < 3 && b < 3);
    assert!(g.get(a).unwrap().dependencies.contains(&b));
}

#[test]
fn self_dependency_is_a_conflict() {
    let mut g = PlanGraph::new();
    g.add_task(task(0, TritAction::Zero, 1), vec![0]);
    assert_eq!(g.topological_order(), None);
    assert_eq!(g.detect_conflicts(), vec![(0, 0)]);
}

#[test]
fn repeated_dependency_counts_once() {
    let mut g = PlanGraph::new();
    g.add_task(TernaryTask::new(0, "a", TritAction::Positive, 1, 1), vec![]);
    g.add_task(TernaryTask::new(0, "b", TritAction::Zero, 1, 1), vec![0, 0]);
    assert_eq!(g.topological_order(), Some(vec![0, 1]));
    assert!(g.detect_conflicts().is_empty());
}

#[test]
fn order_starts_with_dependency_free_nodes_ascending() {
    let mut g = PlanGraph::new();
    g.add_task(task(0, TritAction::Zero, 1), vec![2]);
    g.add_task(task(0, TritAction::Zero, 1), vec![]);
    g.add_task(task(0, TritAction::Zero, 1), vec![9]);
    g.add_task(task(0, TritAction::Zero, 1), vec![1]);
    let order = g.topological_order().unwrap();
    assert_eq!(&order[..2], &[1, 2]);
    assert_eq!(order.len(), 4);
}

#[test]
fn two_node_cycle_reports_one_edge() {
    let mut g = PlanGraph::new();
    g.add_task(TernaryTask::new(0, "a", TritAction::Positive, 1, 1), vec![1]);
    g.add_task(TernaryTask::new(0, "b", TritAction::Zero, 1, 1), vec![0]);
    let c = g.detect_conflicts();
    assert_eq!(c.len(), 1);
    assert!(c.contains(&(0, 1)) || c.contains(&(1, 0)));
}

#[test]
fn add_task_joins_the_end_of_its_priority_group() {
    let mut s = PriorityScheduler::new();
    s.add_task(task(0, TritAction::Positive, 1));
    s.add_task(task(1, TritAction::Zero, 1));
    s.add_task(task(2, TritAction::Negative, 1));
    s.add_task(task(3, TritAction::Zero, 1));
    let ids: Vec<usize> = s.schedule().iter().map(|t| t.id).collect();
    assert_eq!(ids, vec![0, 1, 3, 2]);
}

#[test]
fn csp_total_priority_at_least_greedy() {
    let tasks = vec![
        task(0, TritAction::Positive, 50),
        task(1, TritAction::Zero, 5),
        task(2, TritAction::Positive, 30),
        task(3, TritAction::Positive, 30),
        task(4, TritAction::Negative, 1),
    ];
    let total = |ids: &Vec<usize>| -> i32 { ids.iter().map(|&i| tasks[i].priority.value()).sum() };
    for budget in [0u64, 10, 35, 60, 61, 65, 200] {
        let g = greedy_solve(&tasks, budget);
        let c = csp_solve(&tasks, budget);
        assert!(total(&c) >= total(&g));
    }
}

#[test]
fn missing_dependency_changes_nothing() {
    let mut g = PlanGraph::new();
    let a = g.add_task(task(0, TritAction::Zero, 1), vec![]);
    g.add_task(task(0, TritAction::Zero, 1), vec![a]);
    let before = g.topological_order();
    g.add_dependency(a, 77);
    assert_eq!(g.topological_order(), before);
    assert!(g.detect_conflicts().is_empty());
}

#[test]
fn sort_and_conflicts_agree() {
    let mut g = PlanGraph::new();
    let a = g.add_task(task(0, TritAction::Zero, 1), vec![]);
    let b = g.add_task(task(0, TritAction::Zero, 1), vec![a]);
    assert!(g.topological_order().is_some());
    assert!(g.detect_conflicts().is_empty());
    g.add_dependency(a, b);
    assert!(g.topological_order().is_none());
    assert!(!g.detect_conflicts().is_empty());
}
