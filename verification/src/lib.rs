//! Planning and scheduling with ternary priorities.

mod csp;
mod graph;
mod graph_spec;
mod resource;
mod scheduler;
mod task;
mod trit;

pub use csp::{
    bit_set, chosen_ids, chosen_need, chosen_score, chosen_tasks, csp_solve, fits, is_best_mask,
    law_chosen_ids_are_ids, law_csp_at_least_greedy, mask_limit, score, total_priority,
};
pub use graph::{PlanGraph, PlanNode};
pub use graph_spec::{
    below, dep_set, depends_on, has_no_dependency, has_splitting_order, has_topological_order,
    ids_below, in_graph_deps, is_path, is_topological_order, law_cycle_excludes_order,
    law_get_after_add_task, law_missing_dependency_ignored, law_sort_agrees_with_conflicts,
    law_split_conflicts_decide_order, node_at, on_cycle, reaches, splits_edges, with_task,
};
pub use resource::{
    law_allocate_keeps_reserve, law_allocate_respects_reserve, law_allocate_within_total,
    law_release_undoes_allocate, law_reserve_only_when_positive,
    reserve_of, sat_sub, ResourceAllocation,
};
pub use scheduler::{
    allocate_in_order, greedy_solve, has_priority, law_add_task_inserts_in_place,
    law_allocate_in_order_accounts, law_allocate_in_order_step, law_greedy_within_budget, law_priority_order_permutes,
    law_priority_order_sorted, law_scheduling_keeps_reserve, priority_order, slot_for, total_need, PriorityScheduler,
};
pub use task::TernaryTask;
pub use trit::{law_trit_numeric_injective, law_trit_round_trip, TritAction};
