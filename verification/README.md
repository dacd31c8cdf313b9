# ternary_planning

Planning and scheduling with ternary priorities ({-1, 0, +1}), verified with Verus.

- `src/trit.rs`: `TritAction` and its integer reading.
- `src/task.rs`: `TernaryTask`.
- `src/resource.rs`: `ResourceAllocation` (a `Positive` constraint keeps 30% of the total in reserve).
- `src/scheduler.rs`: `PriorityScheduler` and `greedy_solve`, specified by `priority_order` and `allocate_in_order`.
- `src/csp.rs`: `csp_solve`, the exhaustive search for the best-scoring subset that fits a budget.
- `src/graph.rs`, `src/graph_spec.rs`: `PlanGraph` with Kahn's topological sort and depth-first cycle detection,
  specified by topological orders, paths and cycles over the node sequence.
