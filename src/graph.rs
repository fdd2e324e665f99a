use vstd::prelude::*;
use crate::error::{Error, error_text};
use crate::task::{TaskConfig, copy_names, names_view};

verus! {

/// A dependency graph as a sequence of (name, dependency names) entries.
pub type DepGraph = Seq<(Seq<char>, Seq<Seq<char>>)>;

/// The graph that a task table defines.
pub open spec fn table_graph(t: Seq<(String, TaskConfig)>) -> DepGraph {
    t.map_values(|e: (String, TaskConfig)| (e.0@, e.1.deps()))
}

/// The graph that an adjacency list holds.
pub open spec fn adjacency_graph(a: Seq<(String, Vec<String>)>) -> DepGraph {
    a.map_values(|e: (String, Vec<String>)| (e.0@, names_view(e.1@)))
}

/// `n` names an entry of `g`.
pub open spec fn has_node(g: DepGraph, n: Seq<char>) -> bool {
    exists|i: int| 0 <= i < g.len() && #[trigger] g[i].0 == n
}

/// The entry of `g` named `a` lists `b` among its dependencies.
pub open spec fn has_edge(g: DepGraph, a: Seq<char>, b: Seq<char>) -> bool {
    exists|i: int| 0 <= i < g.len() && #[trigger] g[i].0 == a && g[i].1.contains(b)
}

/// No two entries of `g` share a name.
pub open spec fn unique_names(g: DepGraph) -> bool {
    forall|i: int, j: int|
        0 <= i < g.len() && 0 <= j < g.len() && i != j ==> #[trigger] g[i].0 != #[trigger] g[j].0
}

/// `p` follows dependency edges of `g`.
pub open spec fn is_path(g: DepGraph, p: Seq<Seq<char>>) -> bool {
    &&& p.len() > 0
    &&& forall|k: int| 0 <= k < p.len() - 1 ==> #[trigger] has_edge(g, p[k], p[k + 1])
}

/// `p` follows dependency edges of `g` from one of `roots`.
pub open spec fn path_from(g: DepGraph, roots: Seq<Seq<char>>, p: Seq<Seq<char>>) -> bool {
    is_path(g, p) && roots.contains(p[0])
}

/// `n` is reached from `roots` along dependency edges (a root reaches itself).
pub open spec fn reachable(g: DepGraph, roots: Seq<Seq<char>>, n: Seq<char>) -> bool {
    exists|p: Seq<Seq<char>>| #[trigger] path_from(g, roots, p) && p.last() == n
}

/// `p` runs from a root and ends by returning to its element at `j`: a
/// reachable cycle.
pub open spec fn lasso(g: DepGraph, roots: Seq<Seq<char>>, p: Seq<Seq<char>>, j: int) -> bool {
    &&& path_from(g, roots, p)
    &&& 0 <= j < p.len() - 1
    &&& p[j] == p.last()
}

/// Some cycle of `g` is reachable from `roots`.
pub open spec fn has_reachable_cycle(g: DepGraph, roots: Seq<Seq<char>>) -> bool {
    exists|p: Seq<Seq<char>>, j: int| #[trigger] lasso(g, roots, p, j)
}

/// Some task reachable from `roots` lists a dependency that `g` lacks.
pub open spec fn has_missing_dependency(g: DepGraph, roots: Seq<Seq<char>>) -> bool {
    exists|t: Seq<char>, d: Seq<char>|
        #[trigger] has_edge(g, t, d) && reachable(g, roots, t) && !has_node(g, d)
}

/// Every root names an entry of `g`.
pub open spec fn all_roots_known(g: DepGraph, roots: Seq<Seq<char>>) -> bool {
    forall|r: Seq<char>| roots.contains(r) ==> #[trigger] has_node(g, r)
}

/// A plan can be built for `roots`: they exist, every reachable dependency
/// exists, and no cycle is reachable.
pub open spec fn plannable(g: DepGraph, roots: Seq<Seq<char>>) -> bool {
    &&& all_roots_known(g, roots)
    &&& !has_missing_dependency(g, roots)
    &&& !has_reachable_cycle(g, roots)
}

/// What an error of the graph builder says about `g` and `roots`.
pub open spec fn explains(g: DepGraph, roots: Seq<Seq<char>>, e: Error) -> bool {
    match e {
        Error::UnknownTask { task } => roots.contains(task@) && !has_node(g, task@),
        Error::UnknownDependency { task, dependency } => {
            &&& reachable(g, roots, task@)
            &&& has_edge(g, task@, dependency@)
            &&& !has_node(g, dependency@)
        },
        Error::CyclicDependency { task } => exists|p: Seq<Seq<char>>, j: int|
            #[trigger] lasso(g, roots, p, j) && p.last() == task@ && p.drop_last().no_duplicates(),
        _ => false,
    }
}

/// `c` lies on a cycle of `g` that passes no task twice.
pub open spec fn on_cycle(g: DepGraph, c: Seq<char>) -> bool {
    exists|p: Seq<Seq<char>>|
        #[trigger] is_path(g, p) && p.len() >= 2 && p[0] == c && p.last() == c && p.drop_last().no_duplicates()
}

/// What an error of the walk from `t` says about the part of `g` that `t`
/// reaches.
pub open spec fn explains_from(g: DepGraph, t: Seq<char>, e: Error) -> bool {
    match e {
        Error::UnknownDependency { task, dependency } => {
            &&& reachable(g, seq![t], task@)
            &&& has_edge(g, task@, dependency@)
            &&& !has_node(g, dependency@)
        },
        Error::CyclicDependency { task } => reachable(g, seq![t], task@) && on_cycle(g, task@),
        Error::UnknownTask { task } => task@ == t && !has_node(g, t),
        _ => false,
    }
}

/// Every dependency of an entry names an earlier entry.
pub open spec fn deps_earlier(a: DepGraph) -> bool {
    forall|k: int, d: Seq<char>|
        0 <= k < a.len() && #[trigger] a[k].1.contains(d) ==> exists|m: int|
            0 <= m < k && #[trigger] a[m].0 == d
}

/// `a` is the part of `g` reachable from `roots`, each task after its
/// dependencies.
pub open spec fn reachable_part(g: DepGraph, roots: Seq<Seq<char>>, a: DepGraph) -> bool {
    &&& unique_names(a)
    &&& forall|k: int| 0 <= k < a.len() ==> g.contains(#[trigger] a[k])
    &&& deps_earlier(a)
    &&& forall|n: Seq<char>| #[trigger] has_node(a, n) <==> reachable(g, roots, n)
}

/// The state of the depth-first walk: `a` holds finished tasks, `stack` the
/// tasks in progress.
pub open spec fn walk_state(
    g: DepGraph,
    roots: Seq<Seq<char>>,
    a: DepGraph,
    stack: Seq<Seq<char>>,
) -> bool {
    &&& unique_names(a)
    &&& forall|k: int| 0 <= k < a.len() ==> g.contains(#[trigger] a[k])
    &&& deps_earlier(a)
    &&& forall|k: int| 0 <= k < a.len() ==> reachable(g, roots, #[trigger] a[k].0)
    &&& stack.no_duplicates()
    &&& forall|k: int| 0 <= k < stack.len() ==> !has_node(a, #[trigger] stack[k])
    &&& forall|k: int| 0 <= k < stack.len() ==> has_node(g, #[trigger] stack[k])
}

proof fn lemma_path_push(g: DepGraph, p: Seq<Seq<char>>, x: Seq<char>)
    requires
        is_path(g, p),
        has_edge(g, p.last(), x),
    ensures
        is_path(g, p.push(x)),
{
    let q = p.push(x);
    assert forall|k: int| 0 <= k < q.len() - 1 implies #[trigger] has_edge(g, q[k], q[k + 1]) by {
        if k < p.len() - 1 {
            assert(q[k] == p[k] && q[k + 1] == p[k + 1]);
        } else {
            assert(q[k] == p.last() && q[k + 1] == x);
        }
    }
}

proof fn lemma_stack_fits(g: DepGraph, s: Seq<Seq<char>>)
    requires
        s.no_duplicates(),
        forall|k: int| 0 <= k < s.len() ==> has_node(g, #[trigger] s[k]),
    ensures
        s.len() <= g.len(),
{
    let names = g.map_values(|e: (Seq<char>, Seq<Seq<char>>)| e.0);
    assert forall|x: Seq<char>| s.to_set().contains(x) implies names.to_set().contains(x) by {
        let k = choose|k: int| 0 <= k < s.len() && s[k] == x;
        assert(has_node(g, s[k]));
        let i = choose|i: int| 0 <= i < g.len() && #[trigger] g[i].0 == s[k];
        assert(names[i] == x);
    }
    s.unique_seq_to_set();
    names.lemma_cardinality_of_set();
    vstd::set_lib::lemma_len_subset(s.to_set(), names.to_set());
}

proof fn lemma_path_concat(g: DepGraph, p: Seq<Seq<char>>, q: Seq<Seq<char>>)
    requires
        is_path(g, p),
        is_path(g, q),
        p.last() == q[0],
    ensures
        is_path(g, p + q.drop_first()),
        (p + q.drop_first()).last() == q.last(),
        (p + q.drop_first())[0] == p[0],
{
    let r = p + q.drop_first();
    assert forall|k: int| 0 <= k < r.len() - 1 implies #[trigger] has_edge(g, r[k], r[k + 1]) by {
        if k < p.len() - 1 {
            assert(r[k] == p[k] && r[k + 1] == p[k + 1]);
        } else {
            let m = k - (p.len() - 1);
            assert(r[k] == q[m] && r[k + 1] == q[m + 1]);
        }
    }
}

proof fn lemma_subpath(g: DepGraph, p: Seq<Seq<char>>, i: int, j: int)
    requires
        is_path(g, p),
        0 <= i < j <= p.len(),
    ensures
        is_path(g, p.subrange(i, j)),
{
    let q = p.subrange(i, j);
    assert forall|k: int| 0 <= k < q.len() - 1 implies #[trigger] has_edge(g, q[k], q[k + 1]) by {
        assert(q[k] == p[i + k] && q[k + 1] == p[i + k + 1]);
    }
}

/// What a dependency of `t` reaches, `t` reaches.
proof fn lemma_reach_prepend(g: DepGraph, t: Seq<char>, d: Seq<char>, x: Seq<char>)
    requires
        has_edge(g, t, d),
        reachable(g, seq![d], x),
    ensures
        reachable(g, seq![t], x),
{
    let p = choose|p: Seq<Seq<char>>| #[trigger] path_from(g, seq![d], p) && p.last() == x;
    let e = seq![t, d];
    assert(has_edge(g, e[0], e[1]));
    assert(is_path(g, e));
    assert(seq![d].contains(p[0]));
    assert(p[0] == seq![d][0]);
    lemma_path_concat(g, e, p);
    let r = e + p.drop_first();
    assert(r[0] == e[0]);
    assert(seq![t][0] == t);
    assert(seq![t].contains(r[0]));
    assert(path_from(g, seq![t], r));
}

proof fn lemma_reach_self(g: DepGraph, t: Seq<char>)
    ensures
        reachable(g, seq![t], t),
{
    let p = seq![t];
    assert(seq![t].contains(p[0]));
    assert(path_from(g, seq![t], p));
}

/// A walk error from `t` shows that no plan can be built for `t`.
proof fn lemma_explains_from_unplannable(g: DepGraph, t: Seq<char>, e: Error)
    requires
        explains_from(g, t, e),
    ensures
        !plannable(g, seq![t]),
{
    match e {
        Error::UnknownDependency { task, dependency } => {
            assert(has_edge(g, task@, dependency@));
        },
        Error::CyclicDependency { task } => {
            let c = task@;
            let q = choose|q: Seq<Seq<char>>| #[trigger] path_from(g, seq![t], q) && q.last() == c;
            let cyc = choose|p: Seq<Seq<char>>|
                #[trigger] is_path(g, p) && p.len() >= 2 && p[0] == c && p.last() == c && p.drop_last().no_duplicates();
            lemma_path_concat(g, q, cyc);
            let r = q + cyc.drop_first();
            assert(r[q.len() - 1] == c);
            assert(lasso(g, seq![t], r, q.len() - 1));
        },
        Error::UnknownTask { task } => {
            assert(seq![t][0] == t);
            assert(seq![t].contains(t));
        },
        _ => {},
    }
}

/// A closed part holding the roots shows that a plan can be built for them.
proof fn lemma_closed_plannable(g: DepGraph, roots: Seq<Seq<char>>, a: DepGraph)
    requires
        unique_names(g),
        unique_names(a),
        forall|k: int| 0 <= k < a.len() ==> g.contains(#[trigger] a[k]),
        deps_earlier(a),
        forall|r: Seq<char>| roots.contains(r) ==> #[trigger] has_node(a, r),
    ensures
        plannable(g, roots),
        forall|n: Seq<char>| reachable(g, roots, n) ==> #[trigger] has_node(a, n),
{
    assert forall|n: Seq<char>| reachable(g, roots, n) implies #[trigger] has_node(a, n) by {
        let p = choose|p: Seq<Seq<char>>| #[trigger] path_from(g, roots, p) && p.last() == n;
        lemma_path_in_part(g, roots, a, p);
        assert(has_node(a, p[p.len() - 1]));
    }
    assert forall|r: Seq<char>| roots.contains(r) implies #[trigger] has_node(g, r) by {
        assert(has_node(a, r));
        let m = choose|m: int| 0 <= m < a.len() && #[trigger] a[m].0 == r;
        assert(g.contains(a[m]));
    }
    assert(!has_missing_dependency(g, roots)) by {
        if has_missing_dependency(g, roots) {
            let (t, d) = choose|t: Seq<char>, d: Seq<char>|
                #[trigger] has_edge(g, t, d) && reachable(g, roots, t) && !has_node(g, d);
            assert(has_node(a, t));
            let m = choose|m: int| 0 <= m < a.len() && #[trigger] a[m].0 == t;
            lemma_entry_edges(g, a, m, d);
            let m2 = choose|m2: int| 0 <= m2 < m && #[trigger] a[m2].0 == d;
            assert(g.contains(a[m2]));
            let i = choose|i: int| 0 <= i < g.len() && g[i] == a[m2];
            assert(g[i].0 == d);
        }
    }
    assert(!has_reachable_cycle(g, roots)) by {
        if has_reachable_cycle(g, roots) {
            let (p, j) = choose|p: Seq<Seq<char>>, j: int| #[trigger] lasso(g, roots, p, j);
            lemma_path_in_part(g, roots, a, p);
            lemma_part_acyclic(g, roots, a, p, j);
            assert(position(a, p[p.len() - 1]) < position(a, p[j]));
        }
    }
}

/// An error of the walk from a dependency of `t` is an error of the walk from `t`.
proof fn lemma_explains_from_prepend(g: DepGraph, t: Seq<char>, d: Seq<char>, e: Error)
    requires
        has_edge(g, t, d),
        has_node(g, d),
        explains_from(g, d, e),
    ensures
        explains_from(g, t, e),
{
    match e {
        Error::UnknownDependency { task, dependency } => {
            lemma_reach_prepend(g, t, d, task@);
        },
        Error::CyclicDependency { task } => {
            lemma_reach_prepend(g, t, d, task@);
        },
        _ => {},
    }
}

/// After a successful walk from `t`, the entries are the earlier ones and
/// what `t` reaches, and a plan can be built for `t`.
proof fn lemma_walk_from(g: DepGraph, t: Seq<char>, a0: DepGraph, a: DepGraph)
    requires
        unique_names(g),
        unique_names(a),
        forall|k: int| 0 <= k < a.len() ==> g.contains(#[trigger] a[k]),
        deps_earlier(a),
        has_node(a, t),
        a0.len() <= a.len(),
        a.subrange(0, a0.len() as int) == a0,
        forall|k: int| a0.len() <= k < a.len() ==> reachable(g, seq![t], #[trigger] a[k].0),
    ensures
        plannable(g, seq![t]),
        forall|n: Seq<char>| #[trigger] has_node(a, n) <==> has_node(a0, n) || reachable(g, seq![t], n),
{
    assert forall|r: Seq<char>| seq![t].contains(r) implies #[trigger] has_node(a, r) by {
        assert(r == seq![t][0]);
    }
    lemma_closed_plannable(g, seq![t], a);
    assert forall|n: Seq<char>| #[trigger] has_node(a, n) <==> has_node(a0, n) || reachable(g, seq![t], n) by {
        if has_node(a, n) {
            let k = choose|k: int| 0 <= k < a.len() && #[trigger] a[k].0 == n;
            if k < a0.len() {
                assert(a.subrange(0, a0.len() as int)[k] == a[k]);
                assert(a0[k].0 == n);
            }
        }
        if has_node(a0, n) {
            let k = choose|k: int| 0 <= k < a0.len() && #[trigger] a0[k].0 == n;
            assert(a.subrange(0, a0.len() as int)[k] == a[k]);
            assert(a[k].0 == n);
        }
    }
}

/// The entry of `a` named like entry `k` of `a`, as an entry of `g`, has
/// exactly the edges of `g` from that name.
proof fn lemma_entry_edges(g: DepGraph, a: DepGraph, k: int, d: Seq<char>)
    requires
        unique_names(g),
        0 <= k < a.len(),
        g.contains(a[k]),
        has_edge(g, a[k].0, d),
    ensures
        a[k].1.contains(d),
{
    let i = choose|i: int| 0 <= i < g.len() && #[trigger] g[i].0 == a[k].0 && g[i].1.contains(d);
    let i2 = choose|i2: int| 0 <= i2 < g.len() && g[i2] == a[k];
    assert(g[i2].0 == g[i].0);
}

/// A closed part holds every dependency of its tasks.
proof fn lemma_step_in_part(g: DepGraph, a: DepGraph, x: Seq<char>, y: Seq<char>)
    requires
        unique_names(g),
        forall|k: int| 0 <= k < a.len() ==> g.contains(#[trigger] a[k]),
        deps_earlier(a),
        has_node(a, x),
        has_edge(g, x, y),
    ensures
        has_node(a, y),
{
    let m = choose|m: int| 0 <= m < a.len() && #[trigger] a[m].0 == x;
    lemma_entry_edges(g, a, m, y);
    assert(a[m].1.contains(y));
    let m2 = choose|m2: int| 0 <= m2 < m && #[trigger] a[m2].0 == y;
}

/// Along a path from a root, every task is in a closed part that holds the roots.
proof fn lemma_path_in_part(g: DepGraph, roots: Seq<Seq<char>>, a: DepGraph, p: Seq<Seq<char>>)
    requires
        unique_names(g),
        forall|k: int| 0 <= k < a.len() ==> g.contains(#[trigger] a[k]),
        deps_earlier(a),
        forall|r: Seq<char>| roots.contains(r) ==> #[trigger] has_node(a, r),
        path_from(g, roots, p),
    ensures
        forall|k: int| 0 <= k < p.len() ==> #[trigger] has_node(a, p[k]),
{
    assert forall|k: int| 0 <= k < p.len() implies #[trigger] has_node(a, p[k]) by {
        lemma_prefix_in_part(g, roots, a, p, k);
    }
}

proof fn lemma_prefix_in_part(g: DepGraph, roots: Seq<Seq<char>>, a: DepGraph, p: Seq<Seq<char>>, k: int)
    requires
        unique_names(g),
        forall|k: int| 0 <= k < a.len() ==> g.contains(#[trigger] a[k]),
        deps_earlier(a),
        forall|r: Seq<char>| roots.contains(r) ==> #[trigger] has_node(a, r),
        path_from(g, roots, p),
        0 <= k < p.len(),
    ensures
        has_node(a, p[k]),
    decreases k,
{
    if k == 0 {
        assert(roots.contains(p[0]));
    } else {
        lemma_prefix_in_part(g, roots, a, p, k - 1);
        assert(has_edge(g, p[k - 1], p[(k - 1) + 1]));
        lemma_step_in_part(g, a, p[k - 1], p[k]);
    }
}

/// In a part where dependencies come first, no path returns to where it was.
proof fn lemma_part_acyclic(g: DepGraph, roots: Seq<Seq<char>>, a: DepGraph, p: Seq<Seq<char>>, j: int)
    requires
        unique_names(g),
        unique_names(a),
        forall|k: int| 0 <= k < a.len() ==> g.contains(#[trigger] a[k]),
        deps_earlier(a),
        is_path(g, p),
        forall|k: int| 0 <= k < p.len() ==> #[trigger] has_node(a, p[k]),
        0 <= j < p.len(),
    ensures
        forall|k: int| j < k < p.len() ==> #[trigger] position(a, p[k]) < position(a, p[j]),
    decreases p.len() - j,
{
    if j + 1 < p.len() {
        lemma_part_acyclic(g, roots, a, p, j + 1);
        lemma_position(a, p[j]);
        lemma_position(a, p[j + 1]);
        let m = position(a, p[j]);
        assert(has_edge(g, p[j], p[j + 1]));
        lemma_entry_edges(g, a, m, p[j + 1]);
        let m2 = choose|m2: int| 0 <= m2 < m && #[trigger] a[m2].0 == p[j + 1];
        assert forall|k: int| j < k < p.len() implies #[trigger] position(a, p[k]) < position(a, p[j]) by {
            if k > j + 1 {
                assert(position(a, p[k]) < position(a, p[j + 1]));
            }
        }
    }
}

/// The index of the entry named `n`.
pub open spec fn position(a: DepGraph, n: Seq<char>) -> int {
    choose|m: int| 0 <= m < a.len() && #[trigger] a[m].0 == n
}

pub proof fn lemma_position(a: DepGraph, n: Seq<char>)
    requires
        unique_names(a),
        has_node(a, n),
    ensures
        0 <= position(a, n) < a.len(),
        a[position(a, n)].0 == n,
        forall|m: int| 0 <= m < a.len() && #[trigger] a[m].0 == n ==> m == position(a, n),
{
}

/// A finished walk from every root yields exactly the reachable part, and
/// shows that a plan can be built.
proof fn lemma_walk_done(g: DepGraph, roots: Seq<Seq<char>>, a: DepGraph)
    requires
        unique_names(g),
        walk_state(g, roots, a, Seq::empty()),
        forall|r: Seq<char>| roots.contains(r) ==> #[trigger] has_node(a, r),
    ensures
        reachable_part(g, roots, a),
        plannable(g, roots),
{
    lemma_closed_plannable(g, roots, a);
    assert forall|n: Seq<char>| #[trigger] has_node(a, n) <==> reachable(g, roots, n) by {
        if has_node(a, n) {
            let m = choose|m: int| 0 <= m < a.len() && #[trigger] a[m].0 == n;
            assert(reachable(g, roots, a[m].0));
        }
    }
}

/// An error of the graph builder shows that no plan can be built.
proof fn lemma_explains_unplannable(g: DepGraph, roots: Seq<Seq<char>>, e: Error)
    requires
        explains(g, roots, e),
    ensures
        !plannable(g, roots),
{
    match e {
        Error::UnknownTask { task } => {
            assert(roots.contains(task@) && !has_node(g, task@));
        },
        Error::UnknownDependency { task, dependency } => {
            assert(has_edge(g, task@, dependency@));
        },
        Error::CyclicDependency { task } => {
            let (p, j) = choose|p: Seq<Seq<char>>, j: int|
                #[trigger] lasso(g, roots, p, j) && p.last() == task@;
            assert(lasso(g, roots, p, j));
        },
        _ => {},
    }
}

/// The index of the task named `name`, if there is one.
pub fn find_task(tasks: &Vec<(String, TaskConfig)>, name: &String) -> (r: Option<usize>)
    ensures
        match r {
            Some(i) => i < tasks@.len() && tasks@[i as int].0@ == name@,
            None => !has_node(table_graph(tasks@), name@),
        },
{
    let ghost g = table_graph(tasks@);
    let mut i: usize = 0;
    while i < tasks.len()
        invariant
            i <= tasks@.len(),
            g == table_graph(tasks@),
            forall|k: int| 0 <= k < i ==> g[k].0 != name@,
        decreases tasks.len() - i,
    {
        if tasks[i].0 == *name {
            return Some(i);
        }
        assert(g[i as int].0 == tasks@[i as int].0@);
        i = i + 1;
    }
    None
}

/// Whether an adjacency list has an entry named `name`.
fn adjacency_has(a: &Vec<(String, Vec<String>)>, name: &String) -> (r: bool)
    ensures
        r == has_node(adjacency_graph(a@), name@),
{
    let ghost g = adjacency_graph(a@);
    let mut i: usize = 0;
    while i < a.len()
        invariant
            i <= a@.len(),
            g == adjacency_graph(a@),
            forall|k: int| 0 <= k < i ==> g[k].0 != name@,
        decreases a.len() - i,
    {
        if a[i].0 == *name {
            assert(g[i as int].0 == name@);
            return true;
        }
        assert(g[i as int].0 == a@[i as int].0@);
        i = i + 1;
    }
    false
}

/// The index of `name` in `stack`, if it is there.
fn stack_index(stack: &Vec<String>, name: &String) -> (r: Option<usize>)
    ensures
        match r {
            Some(j) => j < stack@.len() && stack@[j as int]@ == name@,
            None => !names_view(stack@).contains(name@),
        },
{
    let mut i: usize = 0;
    while i < stack.len()
        invariant
            i <= stack@.len(),
            forall|k: int| 0 <= k < i ==> stack@[k]@ != name@,
        decreases stack.len() - i,
    {
        if stack[i] == *name {
            return Some(i);
        }
        i = i + 1;
    }
    None
}

/// Walks depth-first from `task_name`, appending each finished task after its
/// dependencies. A task already finished is left as it is; a task met again
/// while still in progress fails as a cycle named after it; an unknown task or
/// dependency fails as not found.
pub(crate) fn collect_dependencies(
    task_name: &String,
    all_tasks: &Vec<(String, TaskConfig)>,
    task_dependencies: &mut Vec<(String, Vec<String>)>,
    stack: &mut Vec<String>,
    Ghost(roots): Ghost<Seq<Seq<char>>>,
) -> (r: Result<(), Error>)
    requires
        unique_names(table_graph(all_tasks@)),
        path_from(table_graph(all_tasks@), roots, names_view(old(stack)@).push(task_name@)),
        walk_state(
            table_graph(all_tasks@),
            roots,
            adjacency_graph(old(task_dependencies)@),
            names_view(old(stack)@),
        ),
    ensures
        names_view(old(stack)@).contains(task_name@) ==> (r == Err::<(), Error>(
            Error::CyclicDependency { task: *task_name },
        ) && final(task_dependencies)@ == old(task_dependencies)@ && final(stack)@ == old(stack)@),
        !names_view(old(stack)@).contains(task_name@) && has_node(
            adjacency_graph(old(task_dependencies)@),
            task_name@,
        ) ==> (r is Ok && final(task_dependencies)@ == old(task_dependencies)@ && final(stack)@ == old(
            stack,
        )@),
        !has_node(table_graph(all_tasks@), task_name@) ==> (r == Err::<(), Error>(
            Error::UnknownTask { task: *task_name },
        ) && final(task_dependencies)@ == old(task_dependencies)@ && final(stack)@ == old(stack)@),
        r is Ok <==> plannable(table_graph(all_tasks@), seq![task_name@]),
        match r {
            Ok(()) => {
                &&& walk_state(
                    table_graph(all_tasks@),
                    roots,
                    adjacency_graph(final(task_dependencies)@),
                    names_view(old(stack)@),
                )
                &&& forall|n: Seq<char>| #[trigger] has_node(adjacency_graph(final(task_dependencies)@), n) <==> (
                    has_node(adjacency_graph(old(task_dependencies)@), n) || reachable(
                        table_graph(all_tasks@),
                        seq![task_name@],
                        n,
                    ))
                &&& forall|k: int|
                    old(task_dependencies)@.len() <= k < final(task_dependencies)@.len() ==> reachable(
                        table_graph(all_tasks@),
                        seq![task_name@],
                        #[trigger] adjacency_graph(final(task_dependencies)@)[k].0,
                    )
                &&& final(stack)@ == old(stack)@
                &&& final(task_dependencies)@.len() >= old(task_dependencies)@.len()
                &&& final(task_dependencies)@.subrange(0, old(task_dependencies)@.len() as int)
                    == old(task_dependencies)@
                &&& has_node(adjacency_graph(final(task_dependencies)@), task_name@)
            },
            Err(e) => explains_from(table_graph(all_tasks@), task_name@, e) && (has_node(
                table_graph(all_tasks@),
                task_name@,
            ) ==> explains(table_graph(all_tasks@), roots, e)),
        },
    decreases all_tasks@.len() - old(stack)@.len(),
{
    let ghost g = table_graph(all_tasks@);
    let ghost sv = names_view(stack@);
    let ghost a0 = task_dependencies@;
    proof {
        lemma_stack_fits(g, sv);
    }
    match stack_index(stack, task_name) {
        Some(j) => {
            let e = Error::CyclicDependency { task: task_name.clone() };
            proof {
                let p = sv.push(task_name@);
                assert(sv[j as int] == task_name@);
                assert(has_node(g, sv[j as int]));
                assert(p[j as int] == p.last());
                assert(p.drop_last() =~= sv);
                assert(lasso(g, roots, p, j as int));
                let cyc = p.subrange(j as int, p.len() as int);
                lemma_subpath(g, p, j as int, p.len() as int);
                assert(cyc.drop_last() =~= sv.subrange(j as int, sv.len() as int));
                assert(cyc[0] == task_name@ && cyc.last() == task_name@);
                assert(is_path(g, cyc) && cyc.len() >= 2 && cyc[0] == task_name@ && cyc.last() == task_name@ && cyc.drop_last().no_duplicates());
                assert(on_cycle(g, task_name@));
                lemma_reach_self(g, task_name@);
                lemma_explains_from_unplannable(g, task_name@, e);
            }
            return Err(e);
        },
        None => {},
    }
    if adjacency_has(task_dependencies, task_name) {
        proof {
            assert(task_dependencies@.subrange(0, a0.len() as int) =~= a0);
            let a = adjacency_graph(a0);
            assert(a.subrange(0, a.len() as int) =~= a);
            lemma_walk_from(g, task_name@, a, a);
            let m = choose|m: int| 0 <= m < a.len() && #[trigger] a[m].0 == task_name@;
            assert(g.contains(a[m]));
            let q = choose|q: int| 0 <= q < g.len() && g[q] == a[m];
            assert(g[q].0 == task_name@);
        }
        return Ok(());
    }
    let idx = match find_task(all_tasks, task_name) {
        Some(i) => i,
        None => {
            let e = Error::UnknownTask { task: task_name.clone() };
            proof {
                lemma_explains_from_unplannable(g, task_name@, e);
            }
            return Err(e);
        },
    };
    assert(g[idx as int].0 == task_name@);
    stack.push(task_name.clone());
    let ghost s1 = names_view(stack@);
    proof {
        assert(s1 =~= sv.push(task_name@));
        assert forall|k: int| 0 <= k < s1.len() implies has_node(g, #[trigger] s1[k]) by {
            if k < sv.len() {
                assert(s1[k] == sv[k]);
            }
        }
        assert forall|k: int| 0 <= k < s1.len() implies !has_node(adjacency_graph(task_dependencies@), #[trigger] s1[k]) by {
            if k < sv.len() {
                assert(s1[k] == sv[k]);
            }
        }
        assert(s1.no_duplicates()) by {
            assert forall|x: int, y: int| 0 <= x < s1.len() && 0 <= y < s1.len() && x != y implies s1[x] != s1[y] by {
                if x < sv.len() && y < sv.len() {
                    assert(s1[x] == sv[x] && s1[y] == sv[y]);
                } else if x < sv.len() {
                    assert(s1[x] == sv[x]);
                } else if y < sv.len() {
                    assert(s1[y] == sv[y]);
                }
            }
        }
        lemma_stack_fits(g, s1);
        assert(g[idx as int] == (all_tasks@[idx as int].0@, all_tasks@[idx as int].1.deps()));
    }
    let empty: Vec<String> = Vec::new();
    let deps: &Vec<String> = match &all_tasks[idx].1.dependencies {
        Some(v) => v,
        None => &empty,
    };
    let ghost dv = names_view(deps@);
    assert(dv =~= g[idx as int].1);
    let mut i: usize = 0;
    while i < deps.len()
        invariant
            i <= deps@.len(),
            g == table_graph(all_tasks@),
            unique_names(g),
            dv == names_view(deps@),
            dv == g[idx as int].1,
            g[idx as int].0 == task_name@,
            idx < all_tasks@.len(),
            s1 == names_view(stack@),
            s1 == sv.push(task_name@),
            s1.len() <= g.len(),
            stack@ == old(stack)@.push(*task_name),
            g.len() == all_tasks@.len(),
            path_from(g, roots, s1),
            walk_state(g, roots, adjacency_graph(task_dependencies@), s1),
            task_dependencies@.len() >= a0.len(),
            task_dependencies@.subrange(0, a0.len() as int) == a0,
            forall|m: int| 0 <= m < i ==> has_node(adjacency_graph(task_dependencies@), #[trigger] dv[m]),
            sv == names_view(old(stack)@),
            a0 == old(task_dependencies)@,
            !sv.contains(task_name@),
            !has_node(adjacency_graph(a0), task_name@),
            forall|k: int|
                a0.len() <= k < task_dependencies@.len() ==> reachable(
                    g,
                    seq![task_name@],
                    #[trigger] adjacency_graph(task_dependencies@)[k].0,
                ),
        decreases deps@.len() - i,
    {
        let dep_name = &deps[i];
        proof {
            assert(dv[i as int] == dep_name@);
            assert(g[idx as int].1.contains(dep_name@));
            assert(has_edge(g, task_name@, dep_name@));
            assert(s1.last() == task_name@);
        }
        match find_task(all_tasks, dep_name) {
            Some(di) => {
                proof {
                    assert(g[di as int].0 == dep_name@);
                }
            },
            None => {
                let e = Error::UnknownDependency { task: task_name.clone(), dependency: dep_name.clone() };
                proof {
                    assert(reachable(g, roots, task_name@)) by {
                        assert(path_from(g, roots, s1));
                    }
                    lemma_reach_self(g, task_name@);
                    lemma_explains_from_unplannable(g, task_name@, e);
                }
                return Err(e);
            },
        }
        proof {
            lemma_path_push(g, s1, dep_name@);
            assert(names_view(stack@).len() == stack@.len());
        }
        let ghost before = task_dependencies@;
        match collect_dependencies(dep_name, all_tasks, task_dependencies, stack, Ghost(roots)) {
            Ok(()) => {},
            Err(e) => {
                proof {
                    lemma_explains_from_prepend(g, task_name@, dep_name@, e);
                    lemma_explains_from_unplannable(g, task_name@, e);
                }
                return Err(e);
            },
        }
        proof {
            let after = task_dependencies@;
            assert forall|k: int| a0.len() <= k < after.len() implies reachable(
                g,
                seq![task_name@],
                #[trigger] adjacency_graph(after)[k].0,
            ) by {
                if k < before.len() {
                    assert(after.subrange(0, before.len() as int)[k] == before[k]);
                    assert(adjacency_graph(after)[k] == adjacency_graph(before)[k]);
                } else {
                    lemma_reach_prepend(g, task_name@, dep_name@, adjacency_graph(after)[k].0);
                }
            }
            assert(after.subrange(0, a0.len() as int) =~= before.subrange(0, a0.len() as int));
            assert forall|m: int| 0 <= m < i + 1 implies has_node(adjacency_graph(after), #[trigger] dv[m]) by {
                if m < i {
                    assert(has_node(adjacency_graph(before), dv[m]));
                    let q = choose|q: int| 0 <= q < adjacency_graph(before).len() && #[trigger] adjacency_graph(before)[q].0 == dv[m];
                    assert(after[q] == before[q]);
                    assert(adjacency_graph(after)[q].0 == dv[m]);
                }
            }
        }
        i = i + 1;
    }
    let ghost a1 = adjacency_graph(task_dependencies@);
    let ghost pre_push = task_dependencies@;
    task_dependencies.push((task_name.clone(), copy_names(deps)));
    proof {
        let a2 = adjacency_graph(task_dependencies@);
        let n = a1.len();
        assert(a2 =~= a1.push((task_name@, dv)));
        assert(a2[n as int] == g[idx as int]);
        assert(!has_node(a1, task_name@)) by {
            assert(s1[s1.len() - 1] == task_name@);
        }
        assert forall|k: int| 0 <= k < a2.len() implies g.contains(#[trigger] a2[k]) by {
            if k < n {
                assert(a2[k] == a1[k]);
            }
        }
        assert(unique_names(a2)) by {
            assert forall|x: int, y: int| 0 <= x < a2.len() && 0 <= y < a2.len() && x != y implies #[trigger] a2[x].0 != #[trigger] a2[y].0 by {
                if x < n && y < n {
                    assert(a2[x] == a1[x] && a2[y] == a1[y]);
                } else if x < n {
                    assert(a2[x] == a1[x]);
                } else if y < n {
                    assert(a2[y] == a1[y]);
                }
            }
        }
        assert(deps_earlier(a2)) by {
            assert forall|k: int, d: Seq<char>| 0 <= k < a2.len() && #[trigger] a2[k].1.contains(d) implies exists|m: int|
                0 <= m < k && #[trigger] a2[m].0 == d by {
                if k < n {
                    assert(a2[k] == a1[k]);
                    let m = choose|m: int| 0 <= m < k && #[trigger] a1[m].0 == d;
                    assert(a2[m] == a1[m]);
                } else {
                    let x = choose|x: int| 0 <= x < dv.len() && dv[x] == d;
                    assert(has_node(a1, dv[x]));
                    let m = choose|m: int| 0 <= m < a1.len() && #[trigger] a1[m].0 == d;
                    assert(a2[m] == a1[m]);
                }
            }
        }
        assert forall|k: int| 0 <= k < a2.len() implies reachable(g, roots, #[trigger] a2[k].0) by {
            if k < n {
                assert(a2[k] == a1[k]);
            } else {
                assert(path_from(g, roots, s1) && s1.last() == task_name@);
            }
        }
        assert forall|k: int| 0 <= k < sv.len() implies !has_node(a2, #[trigger] sv[k]) by {
            assert(s1[k] == sv[k]);
            assert(!has_node(a1, s1[k]));
            assert(s1[k] != s1[s1.len() - 1]);
            if has_node(a2, sv[k]) {
                let q = choose|q: int| 0 <= q < a2.len() && #[trigger] a2[q].0 == sv[k];
                if q < n {
                    assert(a2[q] == a1[q]);
                }
            }
        }
        assert forall|k: int| 0 <= k < sv.len() implies has_node(g, #[trigger] sv[k]) by {
            assert(s1[k] == sv[k]);
        }
        assert(sv.no_duplicates()) by {
            assert forall|x: int, y: int| 0 <= x < sv.len() && 0 <= y < sv.len() && x != y implies sv[x] != sv[y] by {
                assert(s1[x] == sv[x] && s1[y] == sv[y]);
            }
        }
        assert(a2[n as int].0 == task_name@);
        assert forall|q: int| 0 <= q < a0.len() implies task_dependencies@[q] == a0[q] by {
            assert(task_dependencies@[q] == pre_push[q]);
            assert(pre_push.subrange(0, a0.len() as int)[q] == pre_push[q]);
        }
        assert(task_dependencies@.subrange(0, a0.len() as int) =~= a0);
    }
    stack.pop();
    proof {
        assert(stack@ =~= old(stack)@);
        let af = adjacency_graph(task_dependencies@);
        let ab = adjacency_graph(a0);
        assert(af.subrange(0, ab.len() as int) =~= ab) by {
            assert forall|q: int| 0 <= q < ab.len() implies af[q] == ab[q] by {
                assert(task_dependencies@.subrange(0, a0.len() as int)[q] == a0[q]);
            }
        }
        assert forall|k: int| ab.len() <= k < af.len() implies reachable(g, seq![task_name@], #[trigger] af[k].0) by {
            if k < af.len() - 1 {
                assert(af[k] == a1[k]);
            } else {
                lemma_reach_self(g, task_name@);
            }
        }
        assert(has_node(af, task_name@)) by {
            assert(af[af.len() - 1].0 == task_name@);
        }
        lemma_walk_from(g, task_name@, ab, af);
    }
    Ok(())
}

/// Builds the adjacency list of every task reachable from `task_names`, each
/// entry after the entries of its dependencies.
pub fn build_graph(all_tasks: &Vec<(String, TaskConfig)>, task_names: &[String]) -> (r: Result<
    Vec<(String, Vec<String>)>,
    Error,
>)
    requires
        unique_names(table_graph(all_tasks@)),
    ensures
        r is Ok <==> plannable(table_graph(all_tasks@), names_view(task_names@)),
        match r {
            Ok(a) => reachable_part(
                table_graph(all_tasks@),
                names_view(task_names@),
                adjacency_graph(a@),
            ),
            Err(e) => explains(table_graph(all_tasks@), names_view(task_names@), e),
        },
{
    let ghost g = table_graph(all_tasks@);
    let ghost roots = names_view(task_names@);
    let mut i: usize = 0;
    while i < task_names.len()
        invariant
            i <= task_names@.len(),
            g == table_graph(all_tasks@),
            roots == names_view(task_names@),
            forall|m: int| 0 <= m < i ==> has_node(g, #[trigger] roots[m]),
        decreases task_names.len() - i,
    {
        match find_task(all_tasks, &task_names[i]) {
            Some(k) => {
                assert(g[k as int].0 == roots[i as int]);
            },
            None => {
                let e = Error::UnknownTask { task: task_names[i].clone() };
                proof {
                    assert(roots[i as int] == task_names@[i as int]@);
                    assert(roots.contains(roots[i as int]));
                    lemma_explains_unplannable(g, roots, e);
                }
                return Err(e);
            },
        }
        i = i + 1;
    }
    let mut task_dependencies: Vec<(String, Vec<String>)> = Vec::new();
    let mut stack: Vec<String> = Vec::new();
    proof {
        assert(adjacency_graph(task_dependencies@) =~= Seq::empty());
        assert(names_view(stack@) =~= Seq::empty());
    }
    let mut i: usize = 0;
    while i < task_names.len()
        invariant
            i <= task_names@.len(),
            g == table_graph(all_tasks@),
            unique_names(g),
            roots == names_view(task_names@),
            forall|m: int| 0 <= m < task_names@.len() ==> has_node(g, #[trigger] roots[m]),
            stack@ == Seq::<String>::empty(),
            walk_state(g, roots, adjacency_graph(task_dependencies@), Seq::empty()),
            forall|m: int| 0 <= m < i ==> has_node(adjacency_graph(task_dependencies@), #[trigger] roots[m]),
        decreases task_names.len() - i,
    {
        let ghost before = task_dependencies@;
        proof {
            assert(names_view(stack@) =~= Seq::empty());
            let p = names_view(stack@).push(task_names@[i as int]@);
            assert(p =~= seq![roots[i as int]]);
            assert(roots.contains(p[0]));
            assert(has_node(g, roots[i as int]));
        }
        match collect_dependencies(&task_names[i], all_tasks, &mut task_dependencies, &mut stack, Ghost(roots)) {
            Ok(()) => {},
            Err(e) => {
                proof {
                    lemma_explains_unplannable(g, roots, e);
                }
                return Err(e);
            },
        }
        proof {
            let after = task_dependencies@;
            assert(names_view(stack@) =~= Seq::empty());
            assert forall|m: int| 0 <= m < i + 1 implies has_node(adjacency_graph(after), #[trigger] roots[m]) by {
                if m < i {
                    assert(has_node(adjacency_graph(before), roots[m]));
                    let q = choose|q: int| 0 <= q < adjacency_graph(before).len() && #[trigger] adjacency_graph(before)[q].0 == roots[m];
                    assert(after.subrange(0, before.len() as int)[q] == before[q]);
                    assert(adjacency_graph(after)[q].0 == roots[m]);
                } else {
                    assert(roots[m] == task_names@[m]@);
                }
            }
        }
        i = i + 1;
    }
    proof {
        assert forall|r: Seq<char>| roots.contains(r) implies #[trigger] has_node(adjacency_graph(task_dependencies@), r) by {
            let m = choose|m: int| 0 <= m < roots.len() && roots[m] == r;
            assert(has_node(adjacency_graph(task_dependencies@), roots[m]));
        }
        lemma_walk_done(g, roots, adjacency_graph(task_dependencies@));
    }
    Ok(task_dependencies)
}

/// When every requested task and every reachable dependency exists, a
/// reachable cycle is the only way planning fails, and the error names the
/// cycle: its text begins with "Circular".
pub proof fn cycle_error_is_circular(g: DepGraph, roots: Seq<Seq<char>>, e: Error)
    requires
        all_roots_known(g, roots),
        !has_missing_dependency(g, roots),
        explains(g, roots, e),
    ensures
        has_reachable_cycle(g, roots),
        e is CyclicDependency,
        error_text(e).subrange(0, 8) == "Circular"@,
{
    match e {
        Error::UnknownTask { task } => {
            assert(has_node(g, task@));
        },
        Error::UnknownDependency { task, dependency } => {
            assert(has_edge(g, task@, dependency@));
        },
        Error::CyclicDependency { task } => {
            let (p, j) = choose|p: Seq<Seq<char>>, j: int| #[trigger] lasso(g, roots, p, j) && p.last() == task@;
            assert(lasso(g, roots, p, j));
            reveal_strlit("Circular dependency detected involving task '");
            reveal_strlit("Circular");
            assert(error_text(e).subrange(0, 8) =~= "Circular"@);
        },
        _ => {},
    }
}

} // verus!
