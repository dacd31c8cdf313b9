use vstd::prelude::*;

use crate::graph_spec::{
    below, dep_set, depends_on, has_no_dependency, has_splitting_order, has_topological_order,
    is_path, is_topological_order, law_split_conflicts_decide_order, lemma_below_filter_contains,
    lemma_covering_ids_long, lemma_dep_set_contains, lemma_distinct_ids_bounded,
    lemma_no_dependency_iff, lemma_permutation_covers, node_at, on_cycle, splits_edges, with_task,
};
use crate::task::TernaryTask;

verus! {

/// A node in a PlanGraph.
#[derive(Debug, Clone)]
pub struct PlanNode {
    pub task: TernaryTask,
    pub dependencies: Vec<usize>,
}

/// A directed acyclic graph of ternary-weighted tasks.
///
/// Node ids are handed out as 0, 1, 2, ... and never removed, so the node
/// with id `i` is kept at index `i`.
pub struct PlanGraph {
    nodes: Vec<PlanNode>,
}

impl View for PlanGraph {
    type V = Seq<PlanNode>;

    /// The nodes, indexed by id.
    closed spec fn view(&self) -> Seq<PlanNode> {
        self.nodes@
    }
}

impl PlanGraph {
    /// Every node carries its own id in its task.
    pub open spec fn well_formed(&self) -> bool {
        forall|i: int| 0 <= i < self@.len() ==> (#[trigger] self@[i]).task.id == i
    }

    pub fn new() -> (g: Self)
        ensures
            g@ == Seq::<PlanNode>::empty(),
            g.well_formed(),
    {
        PlanGraph { nodes: Vec::new() }
    }

    pub fn add_task(&mut self, task: TernaryTask, deps: Vec<usize>) -> (id: usize)
        ensures
            id == old(self)@.len(),
            final(self)@ == with_task(old(self)@, task, deps),
            old(self).well_formed() ==> final(self).well_formed(),
    {
        let id = self.nodes.len();
        let node = PlanNode {
            task: TernaryTask {
                id,
                name: task.name,
                priority: task.priority,
                duration: task.duration,
                resource_need: task.resource_need,
            },
            dependencies: deps,
        };
        self.nodes.push(node);
        id
    }

    pub fn get(&self, id: usize) -> (r: Option<&PlanNode>)
        ensures
            r is Some <==> node_at(self@, id) is Some,
            r matches Some(node) ==> node_at(self@, id) == Some(*node),
            self.well_formed() ==> (r matches Some(node) ==> node.task.id == id),
    {
        if id < self.nodes.len() {
            Some(&self.nodes[id])
        } else {
            None
        }
    }

    /// Adds `dep` to the dependencies of node `id`; false when there is no such node.
    pub fn add_dependency(&mut self, id: usize, dep: usize) -> (added: bool)
        ensures
            added == (id < old(self)@.len()),
            final(self)@.len() == old(self)@.len(),
            forall|i: int|
                0 <= i < old(self)@.len() && i != id ==> #[trigger] final(self)@[i] == old(self)@[i],
            added ==> final(self)@[id as int].task == old(self)@[id as int].task,
            added ==> final(self)@[id as int].dependencies@ == old(
                self,
            )@[id as int].dependencies@.push(dep),
            !added ==> final(self)@ == old(self)@,
            old(self).well_formed() ==> final(self).well_formed(),
    {
        if id < self.nodes.len() {
            let mut node = self.nodes.remove(id);
            node.dependencies.push(dep);
            self.nodes.insert(id, node);
            true
        } else {
            false
        }
    }
}

/// How many of the nodes that node `j` depends on are among `popped`.
spec fn hits(nodes: Seq<PlanNode>, j: int, popped: Seq<usize>) -> nat {
    dep_set(nodes, j).intersect(popped.to_set()).len()
}

proof fn lemma_hits_step(nodes: Seq<PlanNode>, j: int, s: Seq<usize>, id: usize)
    requires
        0 <= j < nodes.len(),
        !s.contains(id),
    ensures
        hits(nodes, j, s.push(id)) == hits(nodes, j, s) + (if dep_set(nodes, j).contains(id) {
            1int
        } else {
            0int
        }),
{
    let d = dep_set(nodes, j);
    let st = s.to_set();
    s.lemma_push_to_set_commute(id);
    assert(!d.intersect(st).contains(id));
    if d.contains(id) {
        assert(d.intersect(st.insert(id)) =~= d.intersect(st).insert(id));
    } else {
        assert(d.intersect(st.insert(id)) =~= d.intersect(st));
    }
}

proof fn lemma_hits_bounds(nodes: Seq<PlanNode>, j: int, s: Seq<usize>)
    requires
        0 <= j < nodes.len(),
    ensures
        hits(nodes, j, s) <= dep_set(nodes, j).len(),
{
    vstd::set_lib::lemma_len_intersect(dep_set(nodes, j), s.to_set());
}

/// When the popped nodes account for every dependency of `j`, they include them all.
proof fn lemma_hits_full(nodes: Seq<PlanNode>, j: int, s: Seq<usize>)
    requires
        0 <= j < nodes.len(),
        hits(nodes, j, s) == dep_set(nodes, j).len(),
    ensures
        dep_set(nodes, j).subset_of(s.to_set()),
{
    let d = dep_set(nodes, j);
    vstd::set_lib::lemma_subset_equality(d.intersect(s.to_set()), d);
}

proof fn lemma_hits_covered(nodes: Seq<PlanNode>, j: int, s: Seq<usize>)
    requires
        0 <= j < nodes.len(),
        dep_set(nodes, j).subset_of(s.to_set()),
    ensures
        hits(nodes, j, s) == dep_set(nodes, j).len(),
{
    assert(dep_set(nodes, j).intersect(s.to_set()) =~= dep_set(nodes, j));
}

/// With a topological order, Kahn's count reaches zero everywhere.
proof fn lemma_kahn_reaches_all(
    nodes: Seq<PlanNode>,
    deg: Seq<usize>,
    queue: Seq<usize>,
    order: Seq<usize>,
    k: int,
)
    requires
        nodes.len() <= usize::MAX,
        is_topological_order(nodes, order),
        deg.len() == nodes.len(),
        forall|j: int|
            0 <= j < nodes.len() ==> #[trigger] deg[j] + hits(nodes, j, queue) == dep_set(
                nodes,
                j,
            ).len(),
        forall|x: usize| x < nodes.len() ==> (deg[x as int] == 0 <==> queue.contains(x)),
        0 <= k <= order.len(),
    ensures
        forall|m: int| 0 <= m < k ==> queue.contains(#[trigger] order[m]),
    decreases k,
{
    if k > 0 {
        lemma_kahn_reaches_all(nodes, deg, queue, order, k - 1);
        let x = order[k - 1];
        lemma_permutation_covers(order, nodes.len());
        assert(dep_set(nodes, x as int).subset_of(queue.to_set())) by {
            assert forall|d: usize| dep_set(nodes, x as int).contains(d) implies queue.to_set().contains(
                d,
            ) by {
                lemma_dep_set_contains(nodes, x as int, d);
                assert(order.contains(d));
                let m = choose|m: int| 0 <= m < order.len() && order[m] == d;
                if k - 1 <= m {
                    assert(!depends_on(nodes, order[k - 1], order[m]));
                }
                assert(queue.contains(order[m]));
            }
        }
        lemma_hits_covered(nodes, x as int, queue);
        assert(deg[x as int] == 0);
    }
}

impl PlanGraph {
    /// Topological sort respecting dependencies (Kahn's algorithm).
    ///
    /// Dependencies on ids that are not nodes of the graph are ignored, and a dependency
    /// listed more than once counts once.  The order starts with the nodes that have no
    /// dependency in the graph, in ascending id order.
    pub fn topological_order(&self) -> (r: Option<Vec<usize>>)
        ensures
            r is Some <==> has_topological_order(self@),
            r matches Some(order) ==> {
                &&& is_topological_order(self@, order@)
                &&& forall|i: int, j: int|
                    #![trigger order@[i], order@[j]]
                    0 <= i < j < order@.len() && has_no_dependency(self@, order@[j])
                        ==> has_no_dependency(self@, order@[i]) && order@[i] < order@[j]
            },
    {
        let n = self.nodes.len();
        let ghost g = self@;
        let mut in_degree: Vec<usize> = Vec::new();
        let mut i: usize = 0;
        while i < n
            invariant
                n == g.len(),
                g == self@,
                i <= n,
                in_degree.len() == i,
                forall|j: int| 0 <= j < i ==> in_degree@[j] == dep_set(g, j).len(),
            decreases n - i,
        {
            let c = count_distinct_below(&self.nodes[i].dependencies, n);
            in_degree.push(c);
            i += 1;
        }
        // Nodes with no dependency inside the graph start the queue, in ascending order.
        let mut queue: Vec<usize> = Vec::new();
        let mut i: usize = 0;
        while i < n
            invariant
                n == g.len(),
                g == self@,
                i <= n,
                in_degree.len() == n,
                forall|j: int| 0 <= j < n ==> in_degree@[j] == dep_set(g, j).len(),
                queue@.no_duplicates(),
                forall|p: int| 0 <= p < queue.len() ==> queue@[p] < i,
                forall|p: int, q: int| 0 <= p < q < queue.len() ==> queue@[p] < queue@[q],
                forall|x: usize| x < i ==> (in_degree@[x as int] == 0 <==> queue@.contains(x)),
                forall|x: usize| x >= i ==> !queue@.contains(x),
                forall|p: int|
                    0 <= p < queue.len() ==> dep_set(g, #[trigger] queue@[p] as int) =~= Set::<
                        usize,
                    >::empty(),
            decreases n - i,
        {
            let ghost q0 = queue@;
            if in_degree[i] == 0 {
                proof {
                    vstd::set_lib::lemma_set_empty_equivalency_len(dep_set(g, i as int));
                }
                queue.push(i);
            }
            proof {
                assert forall|x: usize| x < i + 1 implies (in_degree@[x as int] == 0
                    <==> queue@.contains(x)) by {
                    if queue@ != q0 {
                        assert(queue@[q0.len() as int] == i);
                        if q0.contains(x) {
                            let k = choose|k: int| 0 <= k < q0.len() && q0[k] == x;
                            assert(queue@[k] == x);
                        }
                        if queue@.contains(x) && x != i {
                            let k = choose|k: int| 0 <= k < queue.len() && queue@[k] == x;
                            assert(q0[k] == x);
                        }
                    }
                }
                assert forall|x: usize| x >= i + 1 implies !queue@.contains(x) by {
                    if queue@.contains(x) {
                        let k = choose|k: int| 0 <= k < queue.len() && queue@[k] == x;
                        if k < q0.len() {
                            assert(q0[k] == x);
                        }
                    }
                }
            }
            i += 1;
        }
        let ghost roots = queue@.len();
        let mut head: usize = 0;
        proof {
            lemma_distinct_ids_bounded(queue@, n as nat);
            assert forall|j: int| 0 <= j < n implies #[trigger] in_degree@[j] + hits(
                g,
                j,
                queue@.take(0),
            ) == dep_set(g, j).len() by {
                assert(dep_set(g, j).intersect(queue@.take(0).to_set()) =~= Set::<usize>::empty());
            }
            assert forall|p: int| 0 <= p < queue.len() implies has_no_dependency(
                g,
                #[trigger] queue@[p],
            ) by {
                lemma_no_dependency_iff(g, queue@[p]);
            }
        }
        while head < queue.len()
            invariant
                n == g.len(),
                g == self@,
                in_degree.len() == n,
                head <= queue.len() <= n,
                queue@.no_duplicates(),
                forall|p: int| 0 <= p < queue.len() ==> queue@[p] < n,
                forall|j: int|
                    0 <= j < n ==> #[trigger] in_degree@[j] + hits(g, j, queue@.take(head as int))
                        == dep_set(g, j).len(),
                forall|x: usize| x < n ==> (in_degree@[x as int] == 0 <==> queue@.contains(x)),
                forall|p: int|
                    0 <= p < queue.len() ==> dep_set(g, #[trigger] queue@[p] as int).subset_of(
                        queue@.take(p).to_set(),
                    ),
                roots <= queue.len(),
                forall|p: int| 0 <= p < roots ==> has_no_dependency(g, #[trigger] queue@[p]),
                forall|p: int| roots <= p < queue.len() ==> !has_no_dependency(g, #[trigger] queue@[p]),
                forall|p: int, q: int| 0 <= p < q < roots ==> queue@[p] < queue@[q],
            decreases n - head,
        {
            let id = queue[head];
            head = head + 1;
            let ghost before = queue@.take(head - 1);
            proof {
                assert(queue@.take(head as int) =~= before.push(id));
                assert(!before.contains(id));
            }
            let mut j: usize = 0;
            while j < n
                invariant
                    n == g.len(),
                    g == self@,
                    in_degree.len() == n,
                    1 <= head <= queue.len() <= n,
                    id < n,
                    queue@.take(head as int) == before.push(id),
                    !before.contains(id),
                    queue@.no_duplicates(),
                    forall|p: int| 0 <= p < queue.len() ==> queue@[p] < n,
                    forall|j2: int|
                        0 <= j2 < j ==> #[trigger] in_degree@[j2] + hits(g, j2, before.push(id))
                            == dep_set(g, j2).len(),
                    forall|j2: int|
                        j <= j2 < n ==> #[trigger] in_degree@[j2] + hits(g, j2, before)
                            == dep_set(g, j2).len(),
                    forall|x: usize| x < n ==> (in_degree@[x as int] == 0 <==> queue@.contains(x)),
                    forall|p: int|
                        0 <= p < queue.len() ==> dep_set(g, #[trigger] queue@[p] as int).subset_of(
                            queue@.take(p).to_set(),
                        ),
                    roots <= queue.len(),
                    forall|p: int| 0 <= p < roots ==> has_no_dependency(g, #[trigger] queue@[p]),
                    forall|p: int|
                        roots <= p < queue.len() ==> !has_no_dependency(g, #[trigger] queue@[p]),
                    forall|p: int, q: int| 0 <= p < q < roots ==> queue@[p] < queue@[q],
                decreases n - j,
            {
                let has = list_contains(&self.nodes[j].dependencies, id);
                proof {
                    lemma_hits_step(g, j as int, before, id);
                    lemma_dep_set_contains(g, j as int, id);
                    lemma_hits_bounds(g, j as int, before.push(id));
                }
                if has {
                    let d = in_degree[j] - 1;
                    in_degree.set(j, d);
                    if d == 0 {
                        proof {
                            lemma_hits_full(g, j as int, before.push(id));
                            lemma_no_dependency_iff(g, j);
                        }
                        let ghost q0 = queue@;
                        queue.push(j);
                        proof {
                            assert(!q0.contains(j));
                            lemma_distinct_ids_bounded(queue@, n as nat);
                            assert forall|x: usize| x < n implies (in_degree@[x as int] == 0
                                <==> queue@.contains(x)) by {
                                assert(queue@[q0.len() as int] == j);
                                if q0.contains(x) {
                                    let k = choose|k: int| 0 <= k < q0.len() && q0[k] == x;
                                    assert(queue@[k] == x);
                                }
                                if queue@.contains(x) && x != j {
                                    let k = choose|k: int| 0 <= k < queue.len() && queue@[k] == x;
                                    assert(q0[k] == x);
                                }
                            }
                            assert(queue@.take(head as int) =~= q0.take(head as int));
                            assert forall|p: int| 0 <= p < queue.len() implies dep_set(
                                g,
                                #[trigger] queue@[p] as int,
                            ).subset_of(queue@.take(p).to_set()) by {
                                if p < q0.len() {
                                    assert(queue@.take(p) =~= q0.take(p));
                                } else {
                                    assert(queue@.take(p) =~= q0);
                                    assert forall|x: usize|
                                        q0.take(head as int).to_set().contains(x) implies q0.to_set().contains(
                                        x,
                                    ) by {
                                        let k = choose|k: int|
                                            0 <= k < q0.take(head as int).len() && q0.take(
                                                head as int,
                                            )[k] == x;
                                        assert(q0[k] == x);
                                    }
                                }
                            }
                            assert forall|p: int|
                                roots <= p < queue.len() implies !has_no_dependency(
                                g,
                                #[trigger] queue@[p],
                            ) by {
                                if p < q0.len() {
                                    assert(queue@[p] == q0[p]);
                                }
                            }
                            assert forall|p: int|
                                0 <= p < roots implies has_no_dependency(g, #[trigger] queue@[p]) by {
                                assert(queue@[p] == q0[p]);
                            }
                        }
                    }
                }
                j += 1;
            }
        }
        proof {
            assert(queue@.take(head as int) =~= queue@);
        }
        if queue.len() == n {
            proof {
                assert forall|a: int, b: int|
                    #![trigger queue@[a], queue@[b]]
                    0 <= a <= b < queue.len() implies !depends_on(g, queue@[a], queue@[b]) by {
                    if depends_on(g, queue@[a], queue@[b]) {
                        lemma_dep_set_contains(g, queue@[a] as int, queue@[b]);
                        assert(queue@.take(a).to_set().contains(queue@[b]));
                        let q = choose|q: int|
                            0 <= q < queue@.take(a).len() && queue@.take(a)[q] == queue@[b];
                        assert(queue@[q] == queue@[b]);
                    }
                }
                assert(is_topological_order(g, queue@));
            }
            Some(queue)
        } else {
            proof {
                if has_topological_order(g) {
                    let order = choose|order: Seq<usize>| is_topological_order(g, order);
                    lemma_kahn_reaches_all(g, in_degree@, queue@, order, n as int);
                    lemma_permutation_covers(order, n as nat);
                    assert forall|x: usize| x < n implies queue@.contains(x) by {
                        assert(order.contains(x));
                        let m = choose|m: int| 0 <= m < order.len() && order[m] == x;
                        assert(queue@.contains(order[m]));
                    }
                    lemma_covering_ids_long(queue@, n as nat);
                }
            }
            None
        }
    }
}

/// Number of distinct entries of `v` that are below `n`.
fn count_distinct_below(v: &Vec<usize>, n: usize) -> (c: usize)
    ensures
        c == v@.filter(below(n as nat)).to_set().len(),
{
    let mut c: usize = 0;
    let mut k: usize = 0;
    proof {
        v@.take(0).filter(below(n as nat)).lemma_cardinality_of_set();
    }
    while k < v.len()
        invariant
            k <= v.len(),
            c == v@.take(k as int).filter(below(n as nat)).to_set().len(),
            c <= k,
        decreases v.len() - k,
    {
        let x = v[k];
        let ghost f = v@.take(k as int).filter(below(n as nat));
        proof {
            assert(v@.take(k + 1) =~= v@.take(k as int).push(x));
            v@.take(k as int).lemma_filter_push(x, below(n as nat));
            f.lemma_push_to_set_commute(x);
            lemma_below_filter_contains(v@.take(k as int), n as nat, x);
            f.lemma_cardinality_of_set();
        }
        if x < n && !prefix_contains(v, k, x) {
            c += 1;
        } else {
            proof {
                if x < n {
                    assert(f.to_set().insert(x) =~= f.to_set());
                }
            }
        }
        k += 1;
    }
    proof {
        assert(v@.take(k as int) =~= v@);
    }
    c
}

/// Whether `v` holds `x`.
fn list_contains(v: &Vec<usize>, x: usize) -> (r: bool)
    ensures
        r == v@.contains(x),
{
    let r = prefix_contains(v, v.len(), x);
    proof {
        assert(v@.take(v@.len() as int) =~= v@);
    }
    r
}

/// Whether one of the first `k` entries of `v` is `x`.
fn prefix_contains(v: &Vec<usize>, k: usize, x: usize) -> (r: bool)
    requires
        k <= v@.len(),
    ensures
        r == v@.take(k as int).contains(x),
{
    let mut m: usize = 0;
    while m < k
        invariant
            k <= v@.len(),
            m <= k,
            forall|i: int| 0 <= i < m ==> v@[i] != x,
        decreases k - m,
    {
        if v[m] == x {
            proof {
                assert(v@.take(k as int)[m as int] == x);
            }
            return true;
        }
        m += 1;
    }
    proof {
        if v@.take(k as int).contains(x) {
            let i = choose|i: int| 0 <= i < k && v@.take(k as int)[i] == x;
            assert(v@[i] == x);
        }
    }
    false
}

/// How many entries of `v` are still false.
spec fn unvisited(v: Seq<bool>) -> nat
    decreases v.len(),
{
    if v.len() == 0 {
        0
    } else {
        unvisited(v.drop_last()) + if v.last() {
            0nat
        } else {
            1nat
        }
    }
}

/// Turning entries from false to true never adds unvisited entries, and turning one removes one.
proof fn lemma_unvisited_shrinks(a: Seq<bool>, b: Seq<bool>, k: int)
    requires
        a.len() == b.len(),
        forall|i: int| 0 <= i < a.len() && a[i] ==> b[i],
    ensures
        unvisited(b) <= unvisited(a),
        0 <= k < a.len() && !a[k] && b[k] ==> unvisited(b) < unvisited(a),
    decreases a.len(),
{
    if a.len() > 0 {
        lemma_unvisited_shrinks(a.drop_last(), b.drop_last(), k);
    }
}

/// Node `x` has been entered and left by the depth-first search.
spec fn finished(visited: Seq<bool>, on_stack: Seq<bool>, x: usize) -> bool {
    visited[x as int] && !on_stack[x as int]
}

/// Where the two ends of a reported edge `(x, y)` stand: both finished with `x` no later
/// than `y`; `x` finished and `y` still being explored; or both being explored with `y`
/// no deeper than `x`.  In each case `x` finishes no later than `y`.
spec fn placed(post: Seq<usize>, stack: Seq<usize>, e: (usize, usize)) -> bool {
    ||| exists|i: int, j: int| 0 <= i <= j < post.len() && post[i] == e.0 && post[j] == e.1
    ||| post.contains(e.0) && stack.contains(e.1)
    ||| exists|a: int, b: int| 0 <= a <= b < stack.len() && stack[a] == e.1 && stack[b] == e.0
}

/// The state that the depth-first search keeps between steps.
///
/// `stack` is the chain of nodes being explored, each depending on the next;
/// `post` lists the finished nodes in the order they finished.
spec fn search_state(
    g: Seq<PlanNode>,
    visited: Seq<bool>,
    on_stack: Seq<bool>,
    conflicts: Seq<(usize, usize)>,
    stack: Seq<usize>,
    post: Seq<usize>,
) -> bool {
    let n = g.len();
    &&& visited.len() == n
    &&& on_stack.len() == n
    &&& stack.no_duplicates()
    &&& forall|k: int| 0 <= k < stack.len() ==> stack[k] < n
    &&& forall|x: usize| x < n ==> (on_stack[x as int] <==> stack.contains(x))
    &&& forall|x: usize| x < n && on_stack[x as int] ==> visited[x as int]
    &&& forall|a: int, b: int|
        #![trigger stack[a], stack[b]]
        0 <= a && b == a + 1 && b < stack.len() ==> depends_on(g, stack[a], stack[b])
    &&& post.no_duplicates()
    &&& forall|k: int| 0 <= k < post.len() ==> post[k] < n
    &&& forall|x: usize| x < n ==> (finished(visited, on_stack, x) <==> post.contains(x))
    &&& forall|p: int, d: usize|
        #![trigger depends_on(g, post[p], d)]
        0 <= p < post.len() && depends_on(g, post[p], d) ==> post.take(p).contains(d)
            || conflicts.contains((post[p], d))
    &&& conflicts.no_duplicates()
    &&& forall|c: int| 0 <= c < conflicts.len() ==> on_cycle(g, conflicts[c].0, conflicts[c].1)
    &&& forall|c: int| 0 <= c < conflicts.len() ==> placed(post, stack, #[trigger] conflicts[c])
}

impl PlanGraph {
    /// Detect if the graph has cycles (conflicts in dependencies).
    ///
    /// Returns the dependency edges `(node, dependency)` that the depth-first search
    /// found closing a cycle, each once.  They are exactly the edges that point against
    /// the order in which the search finished the nodes, so taking them out leaves a graph
    /// in topological order, and each of them lies on a cycle.
    pub fn detect_conflicts(&self) -> (conflicts: Vec<(usize, usize)>)
        ensures
            conflicts@.no_duplicates(),
            forall|k: int|
                0 <= k < conflicts@.len() ==> on_cycle(self@, conflicts@[k].0, conflicts@[k].1),
            has_splitting_order(self@, conflicts@),
            conflicts@.len() == 0 <==> has_topological_order(self@),
    {
        let n = self.nodes.len();
        let ghost g = self@;
        let mut visited: Vec<bool> = Vec::new();
        let mut on_stack: Vec<bool> = Vec::new();
        let mut i: usize = 0;
        while i < n
            invariant
                i <= n,
                visited.len() == i,
                on_stack.len() == i,
                forall|x: int| 0 <= x < i ==> !visited@[x] && !on_stack@[x],
            decreases n - i,
        {
            visited.push(false);
            on_stack.push(false);
            i += 1;
        }
        let mut conflicts: Vec<(usize, usize)> = Vec::new();
        let ghost mut post: Seq<usize> = Seq::empty();
        let mut id: usize = 0;
        while id < n
            invariant
                n == g.len(),
                g == self@,
                id <= n,
                search_state(g, visited@, on_stack@, conflicts@, Seq::empty(), post),
                forall|x: int| 0 <= x < id ==> visited@[x],
            decreases n - id,
        {
            if !visited[id] {
                let ghost_post = self.visit(
                    id,
                    &mut visited,
                    &mut on_stack,
                    &mut conflicts,
                    Ghost(Seq::empty()),
                    Ghost(post),
                );
                proof {
                    post = ghost_post@;
                }
            }
            id += 1;
        }
        proof {
            assert forall|x: usize| x < n implies post.contains(x) by {
                assert(visited@[x as int]);
                assert(!on_stack@[x as int]);
                assert(finished(visited@, on_stack@, x));
            }
            lemma_distinct_ids_bounded(post, n as nat);
            lemma_covering_ids_long(post, n as nat);
            assert forall|i: int, j: int|
                #![trigger post[i], post[j]]
                0 <= i < post.len() && 0 <= j < post.len() && depends_on(g, post[i], post[j]) implies (
                conflicts@.contains((post[i], post[j])) <==> i <= j) by {
                if conflicts@.contains((post[i], post[j])) {
                    let c = choose|c: int| 0 <= c < conflicts@.len() && conflicts@[c] == (post[i], post[j]);
                    assert(placed(post, Seq::empty(), conflicts@[c]));
                    let (i2, j2) = choose|i2: int, j2: int|
                        0 <= i2 <= j2 < post.len() && post[i2] == post[i] && post[j2] == post[j];
                } else if i <= j {
                    assert(post.take(i).contains(post[j]));
                    let q = choose|q: int| 0 <= q < post.take(i).len() && post.take(i)[q] == post[j];
                    assert(post[q] == post[j]);
                }
            }
            assert(splits_edges(g, post, conflicts@));
            law_split_conflicts_decide_order(g, conflicts@);
        }
        conflicts
    }

    /// Depth-first search from `id` along dependencies, recording edges back into the
    /// chain of nodes being explored.
    fn visit(
        &self,
        id: usize,
        visited: &mut Vec<bool>,
        on_stack: &mut Vec<bool>,
        conflicts: &mut Vec<(usize, usize)>,
        Ghost(stack): Ghost<Seq<usize>>,
        Ghost(post): Ghost<Seq<usize>>,
    ) -> (post_out: Ghost<Seq<usize>>)
        requires
            search_state(self@, old(visited)@, old(on_stack)@, old(conflicts)@, stack, post),
            id < self@.len(),
            !old(visited)@[id as int],
            stack.len() > 0 ==> depends_on(self@, stack[stack.len() - 1], id),
        ensures
            search_state(self@, final(visited)@, final(on_stack)@, final(conflicts)@, stack, post_out@),
            final(visited)@[id as int],
            final(on_stack)@ == old(on_stack)@,
            forall|x: int| 0 <= x < self@.len() && old(visited)@[x] ==> final(visited)@[x],
            post.len() <= post_out@.len(),
            post_out@.take(post.len() as int) == post,
            old(conflicts)@.len() <= final(conflicts)@.len(),
            final(conflicts)@.take(old(conflicts)@.len() as int) == old(conflicts)@,
            forall|c: int|
                old(conflicts)@.len() <= c < final(conflicts)@.len() ==> !old(visited)@[(
                #[trigger] final(conflicts)@[c]).0 as int] && final(visited)@[final(conflicts)@[c].0 as int],
        decreases unvisited(old(visited)@),
    {
        let n = self.nodes.len();
        let ghost g = self@;
        visited.set(id, true);
        on_stack.set(id, true);
        let ghost path = stack.push(id);
        let ghost mut post_cur = post;
        proof {
            assert(!stack.contains(id));
            assert(!post.contains(id));
            assert forall|x: usize| x < n implies (on_stack@[x as int] <==> path.contains(x)) by {
                if x != id {
                    if stack.contains(x) {
                        let k = choose|k: int| 0 <= k < stack.len() && stack[k] == x;
                        assert(path[k] == x);
                    }
                    if path.contains(x) {
                        let k = choose|k: int| 0 <= k < path.len() && path[k] == x;
                        assert(stack[k] == x);
                    }
                } else {
                    assert(path[stack.len() as int] == id);
                }
            }
            assert forall|a: int, b: int|
                #![trigger path[a], path[b]]
                0 <= a && b == a + 1 && b < path.len() implies depends_on(g, path[a], path[b]) by {
                if b < stack.len() {
                    assert(stack[a] == path[a] && stack[b] == path[b]);
                }
            }
            assert forall|x: usize| x < n implies (finished(visited@, on_stack@, x) <==> post.contains(x))
                by {
                if x != id {
                    assert(finished(visited@, on_stack@, x) == finished(old(visited)@, old(on_stack)@, x));
                }
            }
            assert forall|c: int| 0 <= c < conflicts@.len() implies placed(
                post_cur,
                path,
                #[trigger] conflicts@[c],
            ) by {
                let e = conflicts@[c];
                assert(placed(post, stack, e));
                if post.contains(e.0) && stack.contains(e.1) {
                    let q = choose|q: int| 0 <= q < stack.len() && stack[q] == e.1;
                    assert(path[q] == e.1);
                }
                if exists|a: int, b: int| 0 <= a <= b < stack.len() && stack[a] == e.1 && stack[b] == e.0 {
                    let (a, b) = choose|a: int, b: int|
                        0 <= a <= b < stack.len() && stack[a] == e.1 && stack[b] == e.0;
                    assert(path[a] == e.1 && path[b] == e.0);
                }
            }
            assert(search_state(g, visited@, on_stack@, conflicts@, path, post_cur));
            assert(conflicts@.take(old(conflicts)@.len() as int) =~= old(conflicts)@);
            assert(post_cur.take(post.len() as int) =~= post);
        }
        let mut k: usize = 0;
        while k < self.nodes[id].dependencies.len()
            invariant
                n == g.len(),
                g == self@,
                id < n,
                search_state(g, visited@, on_stack@, conflicts@, path, post_cur),
                path == stack.push(id),
                visited@[id as int],
                on_stack@ == old(on_stack)@.update(id as int, true),
                !old(visited)@[id as int],
                visited@.len() == old(visited)@.len(),
                forall|x: int| 0 <= x < n && old(visited)@[x] ==> visited@[x],
                post.len() <= post_cur.len(),
                post_cur.take(post.len() as int) == post,
                old(conflicts)@.len() <= conflicts@.len(),
                conflicts@.take(old(conflicts)@.len() as int) == old(conflicts)@,
                forall|c: int|
                    old(conflicts)@.len() <= c < conflicts@.len() ==> !old(visited)@[(
                    #[trigger] conflicts@[c]).0 as int] && visited@[conflicts@[c].0 as int],
                k <= g[id as int].dependencies@.len(),
                forall|m: int|
                    0 <= m < k && #[trigger] g[id as int].dependencies@[m] < n ==> finished(
                        visited@,
                        on_stack@,
                        g[id as int].dependencies@[m],
                    ) || conflicts@.contains((id, g[id as int].dependencies@[m])),
            decreases g[id as int].dependencies@.len() - k,
        {
            let dep = self.nodes[id].dependencies[k];
            let ghost c_before = conflicts@;
            let ghost v_before = visited@;
            let ghost s_before = on_stack@;
            if dep < n {
                if on_stack[dep] {
                    if !pair_listed(conflicts, id, dep) {
                        proof {
                            assert(depends_on(g, id, dep)) by {
                                assert(g[id as int].dependencies@[k as int] == dep);
                            }
                            assert(path.contains(dep));
                            let a = choose|a: int| 0 <= a < path.len() && path[a] == dep;
                            let p = path.subrange(a, path.len() as int);
                            assert(is_path(g, p)) by {
                                assert forall|x: int, y: int|
                                    #![trigger p[x], p[y]]
                                    0 <= x && y == x + 1 && y < p.len() implies depends_on(
                                        g,
                                        p[x],
                                        p[y],
                                    ) by {
                                    assert(p[x] == path[a + x] && p[y] == path[a + y]);
                                }
                            }
                            assert(p[0] == dep && p[p.len() - 1] == id);
                            assert(on_cycle(g, id, dep));
                        }
                        conflicts.push((id, dep));
                        proof {
                            assert(conflicts@.take(old(conflicts)@.len() as int) =~= c_before.take(
                                old(conflicts)@.len() as int,
                            ));
                            assert forall|c: int| 0 <= c < conflicts@.len() implies on_cycle(
                                g,
                                conflicts@[c].0,
                                conflicts@[c].1,
                            ) by {
                                if c < c_before.len() {
                                    assert(conflicts@[c] == c_before[c]);
                                }
                            }
                            assert forall|p: int, d: usize|
                                #![trigger depends_on(g, post_cur[p], d)]
                                0 <= p < post_cur.len() && depends_on(g, post_cur[p], d) implies post_cur.take(
                                p,
                            ).contains(d) || conflicts@.contains((post_cur[p], d)) by {
                                if c_before.contains((post_cur[p], d)) {
                                    let c = choose|c: int|
                                        0 <= c < c_before.len() && c_before[c] == (post_cur[p], d);
                                    assert(conflicts@[c] == c_before[c]);
                                }
                            }
                            assert forall|m: int|
                                0 <= m < k && #[trigger] g[id as int].dependencies@[m] < n implies finished(
                                visited@,
                                on_stack@,
                                g[id as int].dependencies@[m],
                            ) || conflicts@.contains((id, g[id as int].dependencies@[m])) by {
                                let d = g[id as int].dependencies@[m];
                                if c_before.contains((id, d)) {
                                    let c = choose|c: int| 0 <= c < c_before.len() && c_before[c] == (id, d);
                                    assert(conflicts@[c] == c_before[c]);
                                }
                            }
                            assert(conflicts@[c_before.len() as int] == (id, dep));
                            assert forall|c: int| 0 <= c < conflicts@.len() implies placed(
                                post_cur,
                                path,
                                #[trigger] conflicts@[c],
                            ) by {
                                if c < c_before.len() {
                                    assert(conflicts@[c] == c_before[c]);
                                } else {
                                    let a = choose|a: int| 0 <= a < path.len() && path[a] == dep;
                                    let b = path.len() - 1;
                                    assert(path[b] == id);
                                    assert(0 <= a <= b < path.len() && path[a] == dep && path[b] == id);
                                }
                            }
                            assert forall|c: int|
                                old(conflicts)@.len() <= c < conflicts@.len() implies !old(visited)@[(
                                #[trigger] conflicts@[c]).0 as int] && visited@[conflicts@[c].0 as int] by {
                                if c < c_before.len() {
                                    assert(conflicts@[c] == c_before[c]);
                                }
                            }
                        }
                    }
                } else if !visited[dep] {
                    proof {
                        assert(depends_on(g, id, dep)) by {
                            assert(g[id as int].dependencies@[k as int] == dep);
                        }
                        lemma_unvisited_shrinks(old(visited)@, visited@, id as int);
                    }
                    let ghost_post = self.visit(
                        dep,
                        visited,
                        on_stack,
                        conflicts,
                        Ghost(path),
                        Ghost(post_cur),
                    );
                    proof {
                        let np = ghost_post@;
                        assert(np.take(post.len() as int) =~= post_cur.take(post_cur.len() as int).take(
                            post.len() as int,
                        ));
                        assert(post_cur.take(post_cur.len() as int) =~= post_cur);
                        assert(conflicts@.take(old(conflicts)@.len() as int) =~= conflicts@.take(
                            c_before.len() as int,
                        ).take(old(conflicts)@.len() as int));
                        assert forall|m: int|
                            0 <= m < k && #[trigger] g[id as int].dependencies@[m] < n implies finished(
                            visited@,
                            on_stack@,
                            g[id as int].dependencies@[m],
                        ) || conflicts@.contains((id, g[id as int].dependencies@[m])) by {
                            let d = g[id as int].dependencies@[m];
                            if c_before.contains((id, d)) {
                                let c = choose|c: int| 0 <= c < c_before.len() && c_before[c] == (id, d);
                                assert(conflicts@.take(c_before.len() as int)[c] == c_before[c]);
                            }
                        }
                        assert forall|c: int|
                            old(conflicts)@.len() <= c < conflicts@.len() implies !old(visited)@[(
                            #[trigger] conflicts@[c]).0 as int] && visited@[conflicts@[c].0 as int] by {
                            if c < c_before.len() {
                                assert(conflicts@.take(c_before.len() as int)[c] == c_before[c]);
                                assert(conflicts@[c] == c_before[c]);
                            }
                        }
                        post_cur = np;
                    }
                }
            }
            proof {
                assert(g[id as int].dependencies@[k as int] == dep);
            }
            k += 1;
        }
        on_stack.set(id, false);
        let ghost before_post = post_cur;
        proof {
            post_cur = post_cur.push(id);
            assert(on_stack@ =~= old(on_stack)@);
            assert(!before_post.contains(id));
            assert forall|x: usize| x < n implies (finished(visited@, on_stack@, x) <==> post_cur.contains(x))
                by {
                if x != id {
                    if before_post.contains(x) {
                        let q = choose|q: int| 0 <= q < before_post.len() && before_post[q] == x;
                        assert(post_cur[q] == x);
                    }
                    if post_cur.contains(x) {
                        let q = choose|q: int| 0 <= q < post_cur.len() && post_cur[q] == x;
                        assert(before_post[q] == x);
                    }
                } else {
                    assert(post_cur[before_post.len() as int] == id);
                }
            }
            assert forall|x: usize| x < n implies (on_stack@[x as int] <==> stack.contains(x)) by {
                if path.contains(x) && x != id {
                    let q = choose|q: int| 0 <= q < path.len() && path[q] == x;
                    assert(stack[q] == x);
                }
                if stack.contains(x) {
                    let q = choose|q: int| 0 <= q < stack.len() && stack[q] == x;
                    assert(path[q] == x);
                }
            }
            assert forall|p: int, d: usize|
                #![trigger depends_on(g, post_cur[p], d)]
                0 <= p < post_cur.len() && depends_on(g, post_cur[p], d) implies post_cur.take(p).contains(d)
                    || conflicts@.contains((post_cur[p], d)) by {
                if p < before_post.len() {
                    assert(post_cur[p] == before_post[p]);
                    assert(post_cur.take(p) =~= before_post.take(p));
                } else {
                    assert(post_cur[p] == id);
                    assert(post_cur.take(p) =~= before_post);
                    let m = choose|m: int|
                        0 <= m < g[id as int].dependencies@.len() && g[id as int].dependencies@[m] == d;
                    assert(g[id as int].dependencies@[m] < n);
                    if !conflicts@.contains((id, d)) {
                        assert(d != id);
                        assert(finished(visited@, on_stack@, d));
                    }
                }
            }
            assert forall|a: int, b: int|
                #![trigger stack[a], stack[b]]
                0 <= a && b == a + 1 && b < stack.len() implies depends_on(g, stack[a], stack[b]) by {
                assert(stack[a] == path[a] && stack[b] == path[b]);
            }
            assert(post_cur.take(post.len() as int) =~= before_post.take(post.len() as int));
            assert forall|c: int| 0 <= c < conflicts@.len() implies placed(
                post_cur,
                stack,
                #[trigger] conflicts@[c],
            ) by {
                let e = conflicts@[c];
                assert(placed(before_post, path, e));
                let last = before_post.len() as int;
                assert(post_cur[last] == id);
                if exists|i: int, j: int|
                    0 <= i <= j < before_post.len() && before_post[i] == e.0 && before_post[j] == e.1 {
                    let (i, j) = choose|i: int, j: int|
                        0 <= i <= j < before_post.len() && before_post[i] == e.0 && before_post[j] == e.1;
                    assert(post_cur[i] == e.0 && post_cur[j] == e.1);
                } else if before_post.contains(e.0) && path.contains(e.1) {
                    let i = choose|i: int| 0 <= i < before_post.len() && before_post[i] == e.0;
                    assert(post_cur[i] == e.0);
                    if e.1 == id {
                        assert(0 <= i <= last < post_cur.len() && post_cur[i] == e.0 && post_cur[last]
                            == e.1);
                    } else {
                        let q = choose|q: int| 0 <= q < path.len() && path[q] == e.1;
                        assert(stack[q] == e.1);
                    }
                } else {
                    let (a, b) = choose|a: int, b: int|
                        0 <= a <= b < path.len() && path[a] == e.1 && path[b] == e.0;
                    if b == path.len() - 1 {
                        if a == b {
                            assert(0 <= last <= last < post_cur.len() && post_cur[last] == e.0
                                && post_cur[last] == e.1);
                        } else {
                            assert(stack[a] == e.1);
                            assert(post_cur.contains(e.0));
                        }
                    } else {
                        assert(stack[a] == e.1 && stack[b] == e.0);
                    }
                }
            }
        }
        Ghost(post_cur)
    }
}

/// Whether `v` holds the pair `(a, b)`.
fn pair_listed(v: &Vec<(usize, usize)>, a: usize, b: usize) -> (r: bool)
    ensures
        r == v@.contains((a, b)),
{
    let mut k: usize = 0;
    while k < v.len()
        invariant
            k <= v.len(),
            forall|m: int| 0 <= m < k ==> v@[m] != (a, b),
        decreases v.len() - k,
    {
        if v[k].0 == a && v[k].1 == b {
            proof {
                assert(v@[k as int] == (a, b));
            }
            return true;
        }
        k += 1;
    }
    false
}

} // verus!
