use vstd::prelude::*;
use crate::error::Error;
use crate::graph::{
    DepGraph, adjacency_graph, build_graph, deps_earlier, find_task, has_edge, has_node,
    reachable, reachable_part, plannable, explains, table_graph, unique_names,
};
use crate::levels::{
    has_inner_dep, has_stuck_set, is_layering, is_placed, is_stuck_set, levels_view, placed_at,
    placed_on, topological_sort,
};
use crate::task::TaskConfig;

verus! {

/// The tasks of a configuration, each under a name of its own.
pub struct EnvManager {
    tasks: Vec<(String, TaskConfig)>,
}

/// The table after `name` is bound to `config`: an entry of that name is
/// replaced in place, otherwise the entry is appended.
pub open spec fn bound(t: Seq<(String, TaskConfig)>, name: String, config: TaskConfig) -> Seq<(String, TaskConfig)> {
    if exists|i: int| 0 <= i < t.len() && #[trigger] t[i].0@ == name@ {
        let i = choose|i: int| 0 <= i < t.len() && #[trigger] t[i].0@ == name@;
        t.update(i, (name, config))
    } else {
        t.push((name, config))
    }
}

/// The (name, description) pairs of a table, in its order.
pub open spec fn listing(t: Seq<(String, TaskConfig)>) -> Seq<(Seq<char>, Option<String>)> {
    t.map_values(|e: (String, TaskConfig)| (e.0@, e.1.description))
}

impl EnvManager {
    /// The tasks, in the order they were first added.
    pub closed spec fn table(&self) -> Seq<(String, TaskConfig)> {
        self.tasks@
    }

    /// Task names are unique.
    pub closed spec fn wf(&self) -> bool {
        unique_names(table_graph(self.tasks@))
    }

    /// A configuration without tasks.
    pub fn new() -> (r: EnvManager)
        ensures
            r.wf(),
            r.table() == Seq::<(String, TaskConfig)>::empty(),
    {
        EnvManager { tasks: Vec::new() }
    }

    /// Binds `name` to `config`, replacing a task of the same name.
    pub fn add_task(&mut self, name: String, config: TaskConfig)
        requires
            old(self).wf(),
        ensures
            final(self).wf(),
            final(self).table() == bound(old(self).table(), name, config),
    {
        let ghost t = self.tasks@;
        match find_task(&self.tasks, &name) {
            Some(i) => {
                proof {
                    assert(table_graph(t)[i as int].0 == t[i as int].0@);
                    let j = choose|j: int| 0 <= j < t.len() && #[trigger] t[j].0@ == name@;
                    assert(table_graph(t)[j].0 == t[j].0@);
                    assert(i == j);
                }
                self.tasks.set(i, (name, config));
                proof {
                    let g = table_graph(self.tasks@);
                    assert forall|x: int, y: int| 0 <= x < g.len() && 0 <= y < g.len() && x != y implies #[trigger] g[x].0 != #[trigger] g[y].0 by {
                        assert(table_graph(t)[x].0 == t[x].0@);
                        assert(table_graph(t)[y].0 == t[y].0@);
                    }
                }
            },
            None => {
                self.tasks.push((name, config));
                proof {
                    let g = table_graph(self.tasks@);
                    assert forall|i: int| 0 <= i < t.len() implies #[trigger] t[i].0@ != name@ by {
                        assert(table_graph(t)[i].0 == t[i].0@);
                    }
                    assert forall|x: int, y: int| 0 <= x < g.len() && 0 <= y < g.len() && x != y implies #[trigger] g[x].0 != #[trigger] g[y].0 by {
                        if x < t.len() {
                            assert(table_graph(t)[x].0 == t[x].0@);
                        }
                        if y < t.len() {
                            assert(table_graph(t)[y].0 == t[y].0@);
                        }
                    }
                }
            },
        }
    }

    /// The tasks by name.
    pub fn get_tasks(&self) -> (r: &Vec<(String, TaskConfig)>)
        ensures
            r@ == self.table(),
    {
        &self.tasks
    }

    /// Each task's name and description, in table order.
    pub fn list_tasks(&self) -> (r: Vec<(String, Option<String>)>)
        ensures
            r@.map_values(|e: (String, Option<String>)| (e.0@, e.1)) == listing(self.table()),
    {
        let mut r: Vec<(String, Option<String>)> = Vec::new();
        let mut i: usize = 0;
        while i < self.tasks.len()
            invariant
                i <= self.tasks@.len(),
                r@.map_values(|e: (String, Option<String>)| (e.0@, e.1)) == listing(self.tasks@).subrange(0, i as int),
            decreases self.tasks.len() - i,
        {
            let name = self.tasks[i].0.clone();
            let description = crate::task::copy_text(&self.tasks[i].1.description);
            let ghost before = r@;
            r.push((name, description));
            proof {
                let lhs = r@.map_values(|e: (String, Option<String>)| (e.0@, e.1));
                let rhs = listing(self.tasks@).subrange(0, i + 1);
                assert(r@ == before.push((name, description)));
                assert(before.map_values(|e: (String, Option<String>)| (e.0@, e.1)).len() == before.len());
                assert(before.len() == i);
                assert forall|j: int| 0 <= j < i + 1 implies lhs[j] == rhs[j] by {
                    if j < i {
                        assert(r@[j] == before[j]);
                        assert(before.map_values(|e: (String, Option<String>)| (e.0@, e.1))[j] == listing(self.tasks@).subrange(0, i as int)[j]);
                    }
                }
                assert(lhs =~= rhs);
            }
            i = i + 1;
        }
        assert(listing(self.tasks@).subrange(0, i as int) =~= listing(self.tasks@));
        r
    }
}

/// Tasks grouped into levels, with their definitions.
pub struct TaskExecutionPlan {
    /// Level 0 holds the tasks without dependencies; each later level the tasks
    /// whose dependencies all stand on earlier levels.
    pub levels: Vec<Vec<String>>,
    /// The definition of every task of the plan.
    pub tasks: Vec<(String, TaskConfig)>,
}

/// Plans and runs tasks of a configuration from a project root.
pub struct TaskExecutor {
    env_manager: EnvManager,
    working_dir: String,
}

/// `levels` places exactly the tasks of `g` reachable from `roots`, each once:
/// on level 0 those without dependencies, and each other task one level
/// above its highest dependency.
pub open spec fn plan_levels(g: DepGraph, roots: Seq<Seq<char>>, levels: Seq<Seq<Seq<char>>>) -> bool {
    &&& forall|l: int| 0 <= l < levels.len() ==> #[trigger] levels[l].len() > 0
    &&& forall|l: int| 0 <= l < levels.len() ==> #[trigger] levels[l].no_duplicates()
    &&& forall|n: Seq<char>| #[trigger] is_placed(levels, n) <==> reachable(g, roots, n)
    &&& forall|n: Seq<char>, l1: int, i1: int, l2: int, i2: int|
        #[trigger] placed_at(levels, n, l1, i1) && #[trigger] placed_at(levels, n, l2, i2) ==> l1 == l2
    &&& forall|n: Seq<char>, l: int, i: int, d: Seq<char>|
        #[trigger] placed_at(levels, n, l, i) && #[trigger] has_edge(g, n, d)
            ==> exists|l2: int| l2 < l && #[trigger] placed_on(levels, d, l2)
    &&& forall|n: Seq<char>| #[trigger] placed_on(levels, n, 0) <==> reachable(g, roots, n) && !has_inner_dep(g, n)
    &&& forall|n: Seq<char>, l: int, i: int| #[trigger] placed_at(levels, n, l, i) && l > 0 ==> exists|d: Seq<char>|
        #[trigger] has_edge(g, n, d) && placed_on(levels, d, l - 1)
}

/// `plan` holds, for each task reachable from `roots`, its definition as in `t`.
pub open spec fn plan_tasks(t: Seq<(String, TaskConfig)>, roots: Seq<Seq<char>>, plan: Seq<(String, TaskConfig)>) -> bool {
    &&& unique_names(table_graph(plan))
    &&& forall|n: Seq<char>| #[trigger] has_node(table_graph(plan), n) <==> reachable(table_graph(t), roots, n)
    &&& forall|k: int| 0 <= k < plan.len() ==> defined_in(t, #[trigger] plan[k])
}

/// `e` is a task of `t`, with the same definition.
pub open spec fn defined_in(t: Seq<(String, TaskConfig)>, e: (String, TaskConfig)) -> bool {
    exists|i: int| 0 <= i < t.len() && #[trigger] t[i].0@ == e.0@ && e.1.same_as(t[i].1)
}

/// Dependencies before dependents: no set of tasks is stuck.
proof fn lemma_ordered_not_stuck(a: DepGraph)
    requires
        unique_names(a),
        deps_earlier(a),
    ensures
        !has_stuck_set(a),
{
    if has_stuck_set(a) {
        let s = choose|s: Set<Seq<char>>| #[trigger] is_stuck_set(a, s);
        crate::levels::lemma_stuck_nonempty(a, s);
        let n = choose|n: Seq<char>| #[trigger] s.contains(n) && has_node(a, n);
        let k = choose|k: int| 0 <= k < a.len() && #[trigger] a[k].0 == n;
        lemma_ordered_not_in(a, s, k);
    }
}

proof fn lemma_ordered_not_in(a: DepGraph, s: Set<Seq<char>>, k: int)
    requires
        unique_names(a),
        deps_earlier(a),
        is_stuck_set(a, s),
        0 <= k < a.len(),
    ensures
        !s.contains(a[k].0),
    decreases k,
{
    if s.contains(a[k].0) {
        crate::levels::lemma_stuck_member(a, s, a[k].0);
        let d = choose|d: Seq<char>| #[trigger] has_edge(a, a[k].0, d) && s.contains(d);
        let e = choose|e: int| 0 <= e < a.len() && #[trigger] a[e].0 == a[k].0 && a[e].1.contains(d);
        assert(e == k);
        let m = choose|m: int| 0 <= m < k && #[trigger] a[m].0 == d;
        lemma_ordered_not_in(a, s, m);
    }
}

/// Edges of the reachable part are the edges of the whole graph.
proof fn lemma_part_edges(g: DepGraph, roots: Seq<Seq<char>>, a: DepGraph, n: Seq<char>, d: Seq<char>)
    requires
        unique_names(g),
        reachable_part(g, roots, a),
        has_node(a, n),
    ensures
        has_edge(a, n, d) <==> has_edge(g, n, d),
        has_edge(g, n, d) ==> has_node(a, d),
{
    let k = choose|k: int| 0 <= k < a.len() && #[trigger] a[k].0 == n;
    assert(g.contains(a[k]));
    let i = choose|i: int| 0 <= i < g.len() && g[i] == a[k];
    if has_edge(a, n, d) {
        let e = choose|e: int| 0 <= e < a.len() && #[trigger] a[e].0 == n && a[e].1.contains(d);
        assert(e == k);
        assert(g[i].0 == n && g[i].1.contains(d));
    }
    if has_edge(g, n, d) {
        let e = choose|e: int| 0 <= e < g.len() && #[trigger] g[e].0 == n && g[e].1.contains(d);
        assert(e == i);
        assert(a[k].0 == n && a[k].1.contains(d));
        let m = choose|m: int| 0 <= m < k && #[trigger] a[m].0 == d;
    }
}

proof fn lemma_plan_levels(g: DepGraph, roots: Seq<Seq<char>>, a: DepGraph, levels: Seq<Seq<Seq<char>>>)
    requires
        unique_names(g),
        reachable_part(g, roots, a),
        is_layering(a, levels),
    ensures
        plan_levels(g, roots, levels),
{
    assert forall|n: Seq<char>| #[trigger] is_placed(levels, n) <==> reachable(g, roots, n) by {
        if is_placed(levels, n) {
            let l = choose|l: int| #[trigger] placed_on(levels, n, l);
            let i = choose|i: int| #[trigger] placed_at(levels, n, l, i);
            assert(has_node(a, levels[l][i]));
        }
        if reachable(g, roots, n) {
            assert(has_node(a, n));
            let k = choose|k: int| 0 <= k < a.len() && #[trigger] a[k].0 == n;
            assert(is_placed(levels, a[k].0));
        }
    }
    assert forall|n: Seq<char>, l: int, i: int, d: Seq<char>|
        #[trigger] placed_at(levels, n, l, i) && #[trigger] has_edge(g, n, d)
        implies exists|l2: int| l2 < l && #[trigger] placed_on(levels, d, l2) by {
        assert(has_node(a, levels[l][i]));
        lemma_part_edges(g, roots, a, n, d);
    }
    assert forall|n: Seq<char>, l: int, i: int| #[trigger] placed_at(levels, n, l, i) && l > 0 implies exists|d: Seq<char>|
        #[trigger] has_edge(g, n, d) && placed_on(levels, d, l - 1) by {
        assert(has_node(a, levels[l][i]));
        let d = choose|d: Seq<char>| #[trigger] has_edge(a, n, d) && placed_on(levels, d, l - 1);
        lemma_part_edges(g, roots, a, n, d);
    }
    assert forall|n: Seq<char>| #[trigger] placed_on(levels, n, 0) <==> reachable(g, roots, n) && !has_inner_dep(g, n) by {
        if placed_on(levels, n, 0) {
            let i = choose|i: int| #[trigger] placed_at(levels, n, 0, i);
            assert(has_node(a, levels[0][i]));
            if has_inner_dep(g, n) {
                let d = choose|d: Seq<char>| #[trigger] has_edge(g, n, d) && has_node(g, d);
                lemma_part_edges(g, roots, a, n, d);
                let l2 = choose|l2: int| l2 < 0 && #[trigger] placed_on(levels, d, l2);
                let i2 = choose|i2: int| #[trigger] placed_at(levels, d, l2, i2);
            }
        }
        if reachable(g, roots, n) && !has_inner_dep(g, n) {
            assert(has_node(a, n));
            let k = choose|k: int| 0 <= k < a.len() && #[trigger] a[k].0 == n;
            if has_inner_dep(a, a[k].0) {
                let d = choose|d: Seq<char>| #[trigger] has_edge(a, a[k].0, d) && has_node(a, d);
                lemma_part_edges(g, roots, a, n, d);
                let m = choose|m: int| 0 <= m < a.len() && #[trigger] a[m].0 == d;
                assert(g.contains(a[m]));
                let q = choose|q: int| 0 <= q < g.len() && g[q] == a[m];
                assert(has_node(g, d));
            }
        }
    }
}

impl TaskExecutor {
    /// An executor over the tasks of `env_manager`, run from `working_dir`.
    pub fn new(env_manager: EnvManager, working_dir: String) -> (r: TaskExecutor)
        ensures
            r.tasks() == env_manager.table(),
            r.wf() == env_manager.wf(),
            r.working_dir() == working_dir@,
    {
        TaskExecutor { env_manager, working_dir }
    }

    /// The tasks of the configuration.
    pub closed spec fn tasks(&self) -> Seq<(String, TaskConfig)> {
        self.env_manager.table()
    }

    /// Task names are unique.
    pub closed spec fn wf(&self) -> bool {
        self.env_manager.wf()
    }

    /// The project root.
    pub closed spec fn working_dir(&self) -> Seq<char> {
        self.working_dir@
    }

    /// The project root.
    pub fn get_working_dir(&self) -> (r: &String)
        ensures
            r@ == self.working_dir(),
    {
        &self.working_dir
    }

    /// Builds the plan for `task_names`: every task they reach through
    /// dependencies, grouped into levels; within a level, tasks keep the order
    /// in which the graph builder listed them. Fails when a requested task or a
    /// reachable dependency is unknown, or when a cycle is reachable.
    pub fn build_execution_plan(&self, task_names: &[String]) -> (r: Result<TaskExecutionPlan, Error>)
        requires
            self.wf(),
        ensures
            r is Ok <==> plannable(table_graph(self.tasks()), task_names@.map_values(|s: String| s@)),
            match r {
                Ok(plan) => {
                    &&& plan_levels(
                        table_graph(self.tasks()),
                        task_names@.map_values(|s: String| s@),
                        levels_view(plan.levels@),
                    )
                    &&& plan_tasks(self.tasks(), task_names@.map_values(|s: String| s@), plan.tasks@)
                    &&& exists|a: DepGraph|
                        reachable_part(table_graph(self.tasks()), task_names@.map_values(|s: String| s@), a)
                            && #[trigger] is_layering(a, levels_view(plan.levels@))
                },
                Err(e) => explains(table_graph(self.tasks()), task_names@.map_values(|s: String| s@), e),
            },
    {
        let all_tasks = self.env_manager.get_tasks();
        let ghost g = table_graph(all_tasks@);
        let ghost roots = task_names@.map_values(|s: String| s@);
        proof {
            assert(self.env_manager.wf());
        }
        let task_dependencies = match build_graph(all_tasks, task_names) {
            Ok(a) => a,
            Err(e) => {
                return Err(e);
            },
        };
        let ghost a = adjacency_graph(task_dependencies@);
        let levels = match topological_sort(&task_dependencies) {
            Ok(levels) => levels,
            Err(e) => {
                proof {
                    lemma_ordered_not_stuck(a);
                }
                return Err(e);
            },
        };
        proof {
            lemma_plan_levels(g, roots, a, levels_view(levels@));
        }
        let mut plan_tasks_vec: Vec<(String, TaskConfig)> = Vec::new();
        let mut k: usize = 0;
        while k < task_dependencies.len()
            invariant
                k <= task_dependencies@.len(),
                g == table_graph(all_tasks@),
                a == adjacency_graph(task_dependencies@),
                reachable_part(g, roots, a),
                unique_names(g),
                table_graph(plan_tasks_vec@) =~= a.subrange(0, k as int).map_values(
                    |e: (Seq<char>, Seq<Seq<char>>)| (e.0, e.1),
                ),
                forall|q: int| 0 <= q < plan_tasks_vec@.len() ==> defined_in(all_tasks@, #[trigger] plan_tasks_vec@[q]),
                plan_tasks_vec@.len() == k,
            decreases task_dependencies.len() - k,
        {
            let name = &task_dependencies[k].0;
            proof {
                assert(a[k as int].0 == name@);
                assert(g.contains(a[k as int]));
                let i = choose|i: int| 0 <= i < g.len() && g[i] == a[k as int];
                assert(g[i].0 == all_tasks@[i].0@);
            }
            match find_task(all_tasks, name) {
                Some(i) => {
                    let ghost before = plan_tasks_vec@;
                    let config = all_tasks[i].1.copied();
                    plan_tasks_vec.push((name.clone(), config));
                    proof {
                        assert(g[i as int].0 == name@);
                        let i2 = choose|i2: int| 0 <= i2 < g.len() && g[i2] == a[k as int];
                        assert(g[i2].0 == name@);
                        assert(i2 == i);
                        assert(table_graph(plan_tasks_vec@) =~= table_graph(before).push((name@, config.deps())));
                        assert(a.subrange(0, k + 1) =~= a.subrange(0, k as int).push(a[k as int]));
                        assert(plan_tasks_vec@[k as int].1.same_as(all_tasks@[i as int].1));
                        assert forall|q: int| 0 <= q < plan_tasks_vec@.len() implies defined_in(all_tasks@, #[trigger] plan_tasks_vec@[q]) by {
                            if q < k {
                                assert(plan_tasks_vec@[q] == before[q]);
                            } else {
                                assert(all_tasks@[i as int].0@ == plan_tasks_vec@[q].0@);
                            }
                        }
                    }
                },
                None => {
                    proof {
                        assert(false);
                    }
                },
            }
            k = k + 1;
        }
        proof {
            let pt = table_graph(plan_tasks_vec@);
            assert(a.subrange(0, a.len() as int).map_values(|e: (Seq<char>, Seq<Seq<char>>)| (e.0, e.1)) =~= a);
            assert(pt =~= a);
        }
        let ghost lv = levels@;
        let plan = TaskExecutionPlan { levels, tasks: plan_tasks_vec };
        assert(plan.levels@ == lv);
        assert(is_layering(a, levels_view(lv)));
        assert(reachable_part(table_graph(self.tasks()), task_names@.map_values(|s: String| s@), a));
        assert(exists|a2: DepGraph|
            reachable_part(table_graph(self.tasks()), task_names@.map_values(|s: String| s@), a2)
                && #[trigger] is_layering(a2, levels_view(plan.levels@)));
        Ok(plan)
    }

    /// Each task's name and description.
    pub fn list_tasks(&self) -> (r: Vec<(String, Option<String>)>)
        ensures
            r@.map_values(|e: (String, Option<String>)| (e.0@, e.1)) == listing(self.tasks()),
    {
        self.env_manager.list_tasks()
    }
}

} // verus!
