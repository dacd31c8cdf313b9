use vstd::prelude::*;

use crate::graph::PlanNode;
use crate::task::TernaryTask;

verus! {

/// The node with id `id`, if there is one.
pub open spec fn node_at(nodes: Seq<PlanNode>, id: usize) -> Option<PlanNode> {
    if id < nodes.len() {
        Some(nodes[id as int])
    } else {
        None
    }
}

/// The nodes after adding `task` with dependencies `deps`: it gets the next id.
pub open spec fn with_task(nodes: Seq<PlanNode>, task: TernaryTask, deps: Vec<usize>) -> Seq<PlanNode> {
    nodes.push(
        PlanNode {
            task: TernaryTask {
                id: nodes.len() as usize,
                name: task.name,
                priority: task.priority,
                duration: task.duration,
                resource_need: task.resource_need,
            },
            dependencies: deps,
        },
    )
}

/// Node `a` lists node `b` among its dependencies (both are nodes of the graph).
pub open spec fn depends_on(nodes: Seq<PlanNode>, a: usize, b: usize) -> bool {
    &&& a < nodes.len()
    &&& b < nodes.len()
    &&& nodes[a as int].dependencies@.contains(b)
}

/// The predicate "names a node of a graph with `n` nodes".
pub open spec fn below(n: nat) -> spec_fn(usize) -> bool {
    |d: usize| d < n
}

/// The dependencies of node `i` that name nodes of the graph, in order, repeats kept.
pub open spec fn in_graph_deps(nodes: Seq<PlanNode>, i: int) -> Seq<usize> {
    nodes[i].dependencies@.filter(below(nodes.len()))
}

/// The set of nodes that node `i` depends on.
pub open spec fn dep_set(nodes: Seq<PlanNode>, i: int) -> Set<usize> {
    in_graph_deps(nodes, i).to_set()
}

/// Node `x` depends on no node of the graph.
pub open spec fn has_no_dependency(nodes: Seq<PlanNode>, x: usize) -> bool {
    forall|d: usize| !depends_on(nodes, x, d)
}

/// `order` lists every node exactly once, and no node comes before a node it depends on.
pub open spec fn is_topological_order(nodes: Seq<PlanNode>, order: Seq<usize>) -> bool {
    &&& order.len() == nodes.len()
    &&& order.no_duplicates()
    &&& forall|i: int| 0 <= i < order.len() ==> order[i] < nodes.len()
    &&& forall|i: int, j: int|
        #![trigger order[i], order[j]]
        0 <= i <= j < order.len() ==> !depends_on(nodes, order[i], order[j])
}

/// The dependency graph can be put in a topological order (it has no cycle).
pub open spec fn has_topological_order(nodes: Seq<PlanNode>) -> bool {
    exists|order: Seq<usize>| is_topological_order(nodes, order)
}

/// `order` lists every node once, and the edges in `conflicts` are exactly the dependency
/// edges that do not point back in `order`: those from a node to itself or to a node
/// placed after it.  Taking them out leaves `order` a topological order.
pub open spec fn splits_edges(
    nodes: Seq<PlanNode>,
    order: Seq<usize>,
    conflicts: Seq<(usize, usize)>,
) -> bool {
    &&& order.len() == nodes.len()
    &&& order.no_duplicates()
    &&& forall|i: int| 0 <= i < order.len() ==> order[i] < nodes.len()
    &&& forall|i: int, j: int|
        #![trigger order[i], order[j]]
        0 <= i < order.len() && 0 <= j < order.len() && depends_on(nodes, order[i], order[j])
            ==> (conflicts.contains((order[i], order[j])) <==> i <= j)
}

/// Some order of the nodes makes `conflicts` exactly the edges that go against it.
pub open spec fn has_splitting_order(nodes: Seq<PlanNode>, conflicts: Seq<(usize, usize)>) -> bool {
    exists|order: Seq<usize>| splits_edges(nodes, order, conflicts)
}

/// `p` is a walk along dependency edges: each node depends on the next one.
pub open spec fn is_path(nodes: Seq<PlanNode>, p: Seq<usize>) -> bool {
    &&& p.len() > 0
    &&& forall|i: int| 0 <= i < p.len() ==> p[i] < nodes.len()
    &&& forall|i: int, j: int|
        #![trigger p[i], p[j]]
        0 <= i && j == i + 1 && j < p.len() ==> depends_on(nodes, p[i], p[j])
}

/// Following dependency edges leads from `a` to `b`.
pub open spec fn reaches(nodes: Seq<PlanNode>, a: usize, b: usize) -> bool {
    exists|p: Seq<usize>| is_path(nodes, p) && p[0] == a && p[p.len() - 1] == b
}

/// `a` depends on `b` and `b` leads back to `a`: the edge lies on a cycle.
pub open spec fn on_cycle(nodes: Seq<PlanNode>, a: usize, b: usize) -> bool {
    depends_on(nodes, a, b) && reaches(nodes, b, a)
}

/// The set of all node ids below `n`.
pub open spec fn ids_below(n: nat) -> Set<usize> {
    Set::new(|x: usize| x < n)
}

pub proof fn lemma_ids_below(n: nat)
    requires
        n <= usize::MAX + 1,
    ensures
        ids_below(n).finite(),
        ids_below(n).len() == n,
    decreases n,
{
    if n == 0 {
        assert(ids_below(n) =~= Set::empty());
    } else {
        lemma_ids_below((n - 1) as nat);
        let last = (n - 1) as usize;
        assert(ids_below(n) =~= ids_below((n - 1) as nat).insert(last));
    }
}

/// A repeat-free sequence of `n` ids below `n` holds every id below `n`.
pub proof fn lemma_permutation_covers(s: Seq<usize>, n: nat)
    requires
        n <= usize::MAX + 1,
        s.len() == n,
        s.no_duplicates(),
        forall|i: int| 0 <= i < s.len() ==> s[i] < n,
    ensures
        forall|x: usize| x < n ==> s.contains(x),
{
    lemma_ids_below(n);
    s.unique_seq_to_set();
    assert(s.to_set().subset_of(ids_below(n))) by {
        assert forall|x: usize| s.to_set().contains(x) implies ids_below(n).contains(x) by {
            let k = choose|k: int| 0 <= k < s.len() && s[k] == x;
        }
    }
    vstd::set_lib::lemma_subset_equality(s.to_set(), ids_below(n));
    assert forall|x: usize| x < n implies s.contains(x) by {
        assert(ids_below(n).contains(x));
        assert(s.to_set().contains(x));
    }
}

/// A repeat-free sequence of ids below `n` has at most `n` entries.
pub proof fn lemma_distinct_ids_bounded(s: Seq<usize>, n: nat)
    requires
        n <= usize::MAX + 1,
        s.no_duplicates(),
        forall|i: int| 0 <= i < s.len() ==> s[i] < n,
    ensures
        s.len() <= n,
{
    lemma_ids_below(n);
    s.unique_seq_to_set();
    assert(s.to_set().subset_of(ids_below(n))) by {
        assert forall|x: usize| s.to_set().contains(x) implies ids_below(n).contains(x) by {
            let k = choose|k: int| 0 <= k < s.len() && s[k] == x;
        }
    }
    vstd::set_lib::lemma_len_subset(s.to_set(), ids_below(n));
}

/// A sequence that holds every id below `n` has at least `n` entries.
pub proof fn lemma_covering_ids_long(s: Seq<usize>, n: nat)
    requires
        n <= usize::MAX + 1,
        forall|x: usize| x < n ==> s.contains(x),
    ensures
        s.len() >= n,
{
    lemma_ids_below(n);
    s.lemma_cardinality_of_set();
    assert(ids_below(n).subset_of(s.to_set()));
    vstd::set_lib::lemma_len_subset(ids_below(n), s.to_set());
}

/// Membership in the entries of `s` below `n`.
pub proof fn lemma_below_filter_contains(s: Seq<usize>, n: nat, x: usize)
    ensures
        s.filter(below(n)).contains(x) <==> (s.contains(x) && x < n),
{
    let f = s.filter(below(n));
    if f.contains(x) {
        let k = choose|k: int| 0 <= k < f.len() && f[k] == x;
        s.lemma_filter_pred(below(n), k);
        s.lemma_filter_contains_rev(below(n), x);
    }
    if s.contains(x) && x < n {
        let k = choose|k: int| 0 <= k < s.len() && s[k] == x;
        s.lemma_filter_contains(below(n), k);
    }
}

/// Membership in the dependency set of a node.
pub proof fn lemma_dep_set_contains(nodes: Seq<PlanNode>, i: int, x: usize)
    requires
        0 <= i < nodes.len(),
    ensures
        dep_set(nodes, i).contains(x) <==> (nodes[i].dependencies@.contains(x) && x < nodes.len()),
{
    lemma_below_filter_contains(nodes[i].dependencies@, nodes.len(), x);
}

/// A node has no dependency in the graph exactly when its dependency set is empty.
pub proof fn lemma_no_dependency_iff(nodes: Seq<PlanNode>, x: usize)
    requires
        x < nodes.len(),
    ensures
        has_no_dependency(nodes, x) <==> dep_set(nodes, x as int).len() == 0,
{
    let d = dep_set(nodes, x as int);
    vstd::set_lib::lemma_set_empty_equivalency_len(d);
    if has_no_dependency(nodes, x) {
        assert forall|y: usize| !d.contains(y) by {
            lemma_dep_set_contains(nodes, x as int, y);
            assert(!depends_on(nodes, x, y));
        }
        assert(d =~= Set::<usize>::empty());
    }
    if d.len() == 0 {
        assert forall|y: usize| !depends_on(nodes, x, y) by {
            lemma_dep_set_contains(nodes, x as int, y);
            assert(!d.contains(y));
        }
    }
}

/// Along a path, nodes come no later in a topological order than the nodes before them.
pub proof fn lemma_path_descends(nodes: Seq<PlanNode>, order: Seq<usize>, p: Seq<usize>, i: int, j: int)
    requires
        nodes.len() <= usize::MAX + 1,
        is_topological_order(nodes, order),
        is_path(nodes, p),
        0 <= i < order.len(),
        0 <= j < order.len(),
        order[i] == p[0],
        order[j] == p[p.len() - 1],
    ensures
        j <= i,
    decreases p.len(),
{
    if p.len() == 1 {
        assert(order[i] == order[j]);
    } else {
        let q = p.drop_last();
        assert(is_path(nodes, q)) by {
            assert forall|a: int, b: int|
                #![trigger q[a], q[b]]
                0 <= a && b == a + 1 && b < q.len() implies depends_on(nodes, q[a], q[b]) by {
                assert(p[a] == q[a] && p[b] == q[b]);
            }
        }
        let prev = q[q.len() - 1];
        lemma_permutation_covers(order, nodes.len());
        assert(order.contains(prev));
        let k = choose|k: int| 0 <= k < order.len() && order[k] == prev;
        lemma_path_descends(nodes, order, q, i, k);
        let a = p.len() - 2;
        let b = p.len() - 1;
        assert(depends_on(nodes, p[a], p[b]));
        if k <= j {
            assert(!depends_on(nodes, order[k], order[j]));
        }
    }
}

/// Law: a dependency edge that lies on a cycle rules out every topological order.
pub proof fn law_cycle_excludes_order(nodes: Seq<PlanNode>, a: usize, b: usize)
    requires
        on_cycle(nodes, a, b),
    ensures
        !has_topological_order(nodes),
{
    if has_topological_order(nodes) {
        let order = choose|order: Seq<usize>| is_topological_order(nodes, order);
        lemma_distinct_ids_bounded(order, (usize::MAX + 1) as nat);
        let p = choose|p: Seq<usize>| is_path(nodes, p) && p[0] == b && p[p.len() - 1] == a;
        lemma_permutation_covers(order, nodes.len());
        assert(order.contains(a) && order.contains(b));
        let ia = choose|k: int| 0 <= k < order.len() && order[k] == a;
        let ib = choose|k: int| 0 <= k < order.len() && order[k] == b;
        lemma_path_descends(nodes, order, p, ib, ia);
        assert(!depends_on(nodes, order[ia], order[ib]));
    }
}

/// Law: reading a node back after adding it gives the added task under its new id, with
/// the given dependencies, and every other node reads as before.
pub proof fn law_get_after_add_task(nodes: Seq<PlanNode>, task: TernaryTask, deps: Vec<usize>, other: usize)
    requires
        nodes.len() < usize::MAX,
    ensures
        node_at(with_task(nodes, task, deps), nodes.len() as usize) == Some(
            PlanNode {
                task: TernaryTask {
                    id: nodes.len() as usize,
                    name: task.name,
                    priority: task.priority,
                    duration: task.duration,
                    resource_need: task.resource_need,
                },
                dependencies: deps,
            },
        ),
        other != nodes.len() ==> node_at(with_task(nodes, task, deps), other) == node_at(nodes, other),
{
}

/// Law: `topological_order` and `detect_conflicts` agree: the sort succeeds exactly when
/// no conflict is reported.
pub proof fn law_sort_agrees_with_conflicts(
    nodes: Seq<PlanNode>,
    order: Option<Vec<usize>>,
    conflicts: Seq<(usize, usize)>,
)
    requires
        order is Some <==> has_topological_order(nodes),
        conflicts.len() == 0 <==> has_topological_order(nodes),
    ensures
        order is Some <==> conflicts.len() == 0,
{
}

/// Law: a dependency on an id that is not a node changes nothing: the same orders are
/// topological, the same edges lie on cycles, and every node has the same dependency set.
pub proof fn law_missing_dependency_ignored(
    nodes: Seq<PlanNode>,
    changed: Seq<PlanNode>,
    i: int,
    dep: usize,
)
    requires
        0 <= i < nodes.len(),
        dep >= nodes.len(),
        changed.len() == nodes.len(),
        forall|k: int| 0 <= k < nodes.len() && k != i ==> #[trigger] changed[k] == nodes[k],
        changed[i].dependencies@ == nodes[i].dependencies@.push(dep),
    ensures
        forall|order: Seq<usize>| is_topological_order(changed, order) == is_topological_order(nodes, order),
        has_topological_order(changed) == has_topological_order(nodes),
        forall|k: int| 0 <= k < nodes.len() ==> #[trigger] dep_set(changed, k) == dep_set(nodes, k),
        forall|a: usize, b: usize| on_cycle(changed, a, b) == on_cycle(nodes, a, b),
{
    assert forall|a: usize, b: usize| depends_on(changed, a, b) == depends_on(nodes, a, b) by {
        if a as int == i && b < nodes.len() {
            if nodes[i].dependencies@.contains(b) {
                let k = choose|k: int| 0 <= k < nodes[i].dependencies@.len() && nodes[i].dependencies@[k] == b;
                assert(changed[i].dependencies@[k] == b);
            }
            if changed[i].dependencies@.contains(b) {
                let k = choose|k: int| 0 <= k < changed[i].dependencies@.len() && changed[i].dependencies@[k] == b;
                assert(nodes[i].dependencies@[k] == b);
            }
        }
    }
    assert forall|k: int| 0 <= k < nodes.len() implies #[trigger] in_graph_deps(changed, k) == in_graph_deps(nodes, k) by {
        if k == i {
            nodes[i].dependencies@.lemma_filter_push(dep, below(nodes.len()));
        }
    }
    assert forall|p: Seq<usize>| is_path(changed, p) == is_path(nodes, p) by {
    }
    assert forall|a: usize, b: usize| reaches(changed, a, b) == reaches(nodes, a, b) by {
        if reaches(changed, a, b) {
            let p = choose|p: Seq<usize>| is_path(changed, p) && p[0] == a && p[p.len() - 1] == b;
            assert(is_path(nodes, p));
        }
        if reaches(nodes, a, b) {
            let p = choose|p: Seq<usize>| is_path(nodes, p) && p[0] == a && p[p.len() - 1] == b;
            assert(is_path(changed, p));
        }
    }
    if has_topological_order(nodes) {
        let o = choose|o: Seq<usize>| is_topological_order(nodes, o);
        assert(is_topological_order(changed, o));
    }
    if has_topological_order(changed) {
        let o = choose|o: Seq<usize>| is_topological_order(changed, o);
        assert(is_topological_order(nodes, o));
    }
}

/// Law: a set of edges on cycles that some order of the nodes splits off is empty exactly
/// when the graph has a topological order.
pub proof fn law_split_conflicts_decide_order(nodes: Seq<PlanNode>, conflicts: Seq<(usize, usize)>)
    requires
        has_splitting_order(nodes, conflicts),
        forall|c: int| 0 <= c < conflicts.len() ==> on_cycle(nodes, conflicts[c].0, conflicts[c].1),
    ensures
        conflicts.len() == 0 <==> has_topological_order(nodes),
{
    if conflicts.len() == 0 {
        let order = choose|order: Seq<usize>| splits_edges(nodes, order, conflicts);
        assert forall|i: int, j: int|
            #![trigger order[i], order[j]]
            0 <= i <= j < order.len() implies !depends_on(nodes, order[i], order[j]) by {
            if depends_on(nodes, order[i], order[j]) {
                assert(conflicts.contains((order[i], order[j])));
            }
        }
        assert(is_topological_order(nodes, order));
    } else {
        law_cycle_excludes_order(nodes, conflicts[0].0, conflicts[0].1);
    }
}

} // verus!
