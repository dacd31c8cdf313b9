use ternary_planning::{
    csp_solve, greedy_solve, PlanGraph, PriorityScheduler, ResourceAllocation, TernaryTask,
    TritAction,
};

#[test]
fn test_trit_action_values() {
    assert_eq!(TritAction::Negative.value(), -1);
    assert_eq!(TritAction::Zero.value(), 0);
    assert_eq!(TritAction::Positive.value(), 1);
}

#[test]
fn test_trit_from_i32() {
    assert_eq!(TritAction::from_i32(-1), Some(TritAction::Negative));
    assert_eq!(TritAction::from_i32(0), Some(TritAction::Zero));
    assert_eq!(TritAction::from_i32(1), Some(TritAction::Positive));
    assert_eq!(TritAction::from_i32(2), None);
}

#[test]
fn test_task_creation() {
    let t = TernaryTask::new(1, "test", TritAction::Positive, 5, 10);
    assert_eq!(t.id, 1);
    assert_eq!(t.name, "test");
    assert_eq!(t.duration, 5);
}

#[test]
fn test_resource_allocation_basic() {
    let mut r = ResourceAllocation::new(100, TritAction::Zero);
    assert!(r.allocate(50));
    assert_eq!(r.available(), 50);
    assert!(!r.allocate(60));
}

#[test]
fn test_resource_release() {
    let mut r = ResourceAllocation::new(100, TritAction::Zero);
    r.allocate(80);
    r.release(30);
    assert_eq!(r.available(), 50);
}

#[test]
fn test_resource_reserved_constraint() {
    let mut r = ResourceAllocation::new(100, TritAction::Positive);
    // 30% reserved = 30, so only 70 available
    assert!(r.allocate(70));
    assert!(!r.allocate(1));
}

#[test]
fn test_scheduler_priority_order() {
    let mut s = PriorityScheduler::new();
    s.add_task(TernaryTask::new(0, "low", TritAction::Negative, 1, 1));
    s.add_task(TernaryTask::new(1, "high", TritAction::Positive, 1, 1));
    s.add_task(TernaryTask::new(2, "mid", TritAction::Zero, 1, 1));
    let order: Vec<usize> = s.schedule().iter().map(|t| t.id).collect();
    assert_eq!(order, vec![1, 2, 0]);
}

#[test]
fn test_scheduler_with_resources() {
    let mut s = PriorityScheduler::new();
    s.add_task(TernaryTask::new(0, "a", TritAction::Positive, 1, 60));
    s.add_task(TernaryTask::new(1, "b", TritAction::Zero, 1, 50));
    s.add_task(TernaryTask::new(2, "c", TritAction::Negative, 1, 30));
    let mut res = ResourceAllocation::new(100, TritAction::Zero);
    let scheduled: Vec<usize> = s.schedule_with_resources(&mut res).iter().map(|t| t.id).collect();
    assert_eq!(scheduled, vec![0, 2]); // a(60) + c(30) = 90 <= 100, b(50) won't fit
}

#[test]
fn test_plan_graph_add() {
    let mut g = PlanGraph::new();
    let id = g.add_task(TernaryTask::new(0, "root", TritAction::Positive, 1, 1), vec![]);
    assert!(g.get(id).is_some());
}

#[test]
fn test_plan_graph_topo_sort() {
    let mut g = PlanGraph::new();
    let a = g.add_task(TernaryTask::new(0, "a", TritAction::Positive, 1, 1), vec![]);
    let b = g.add_task(TernaryTask::new(0, "b", TritAction::Zero, 1, 1), vec![a]);
    let c = g.add_task(TernaryTask::new(0, "c", TritAction::Negative, 1, 1), vec![a, b]);
    let order = g.topological_order().unwrap();
    assert!(order.iter().position(|&x| x == a).unwrap() < order.iter().position(|&x| x == b).unwrap());
    assert!(order.iter().position(|&x| x == b).unwrap() < order.iter().position(|&x| x == c).unwrap());
}

#[test]
fn test_plan_graph_cycle_detection() {
    let mut g = PlanGraph::new();
    let a = g.add_task(TernaryTask::new(0, "a", TritAction::Positive, 1, 1), vec![]);
    let b = g.add_task(TernaryTask::new(0, "b", TritAction::Zero, 1, 1), vec![a]);
    // Create a cycle by adding b as a dependency of a
    g.add_dependency(a, b);
    let conflicts = g.detect_conflicts();
    assert!(!conflicts.is_empty());
}

#[test]
fn test_plan_graph_no_conflicts() {
    let mut g = PlanGraph::new();
    let a = g.add_task(TernaryTask::new(0, "a", TritAction::Positive, 1, 1), vec![]);
    g.add_task(TernaryTask::new(0, "b", TritAction::Zero, 1, 1), vec![a]);
    assert!(g.detect_conflicts().is_empty());
}

#[test]
fn test_greedy_solver() {
    let tasks = vec![
        TernaryTask::new(0, "low", TritAction::Negative, 1, 10),
        TernaryTask::new(1, "high", TritAction::Positive, 1, 30),
        TernaryTask::new(2, "mid", TritAction::Zero, 1, 20),
    ];
    let result = greedy_solve(&tasks, 60);
    assert!(result.contains(&1)); // high priority always included
}

#[test]
fn test_csp_solver_optimal() {
    let tasks = vec![
        TernaryTask::new(0, "a", TritAction::Positive, 1, 60),
        TernaryTask::new(1, "b", TritAction::Positive, 1, 60),
        TernaryTask::new(2, "c", TritAction::Negative, 1, 10),
    ];
    let result = csp_solve(&tasks, 70);
    // Both a and b can't fit; csp picks best score
    assert!(result.contains(&0) || result.contains(&1));
}

#[test]
fn test_empty_scheduler() {
    let s = PriorityScheduler::new();
    assert!(s.schedule().is_empty());
}

#[test]
fn test_empty_plan_graph() {
    let g = PlanGraph::new();
    assert_eq!(g.topological_order(), Some(vec![]));
}

#[test]
fn test_resource_zero_total() {
    let mut r = ResourceAllocation::new(0, TritAction::Zero);
    assert!(!r.allocate(1));
}

#[test]
fn test_greedy_no_resources() {
    let tasks = vec![TernaryTask::new(0, "a", TritAction::Positive, 1, 10)];
    let result = greedy_solve(&tasks, 0);
    assert!(result.is_empty());
}

#[test]
fn test_csp_empty() {
    let result = csp_solve(&[], 100);
    assert!(result.is_empty());
}

#[test]
fn test_resource_negative_constraint() {
    let mut r = ResourceAllocation::new(100, TritAction::Negative);
    // Negative constraint = no reservation, all available
    assert!(r.allocate(100));
    assert!(!r.allocate(1));
}

#[test]
fn test_plan_graph_missing_dependency() {
    let mut g = PlanGraph::new();
    g.add_task(TernaryTask::new(0, "a", TritAction::Positive, 1, 1), vec![999]);
    let order = g.topological_order();
    assert!(order.is_some()); // Missing dep ignored
}
