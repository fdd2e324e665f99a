use vstd::prelude::*;
use crate::error::Error;
use crate::graph::{DepGraph, adjacency_graph, has_node, has_edge, unique_names, position, lemma_position};
use crate::task::names_view;

verus! {

/// The name at `(l, i)` of a sequence of levels is `n`.
pub open spec fn placed_at(levels: Seq<Seq<Seq<char>>>, n: Seq<char>, l: int, i: int) -> bool {
    0 <= l < levels.len() && 0 <= i < levels[l].len() && levels[l][i] == n
}

/// The name `n` stands on level `l`.
pub open spec fn placed_on(levels: Seq<Seq<Seq<char>>>, n: Seq<char>, l: int) -> bool {
    exists|i: int| #[trigger] placed_at(levels, n, l, i)
}

/// The name `n` stands on some level.
pub open spec fn is_placed(levels: Seq<Seq<Seq<char>>>, n: Seq<char>) -> bool {
    exists|l: int| #[trigger] placed_on(levels, n, l)
}

/// The task named `n` has a dependency that is an entry of `a`.
pub open spec fn has_inner_dep(a: DepGraph, n: Seq<char>) -> bool {
    exists|d: Seq<char>| #[trigger] has_edge(a, n, d) && has_node(a, d)
}

/// `levels` places every entry of `a` exactly once, every dependency on an
/// earlier level than its dependents, and on level 0 exactly the entries
/// without dependencies inside `a`.
pub open spec fn is_layering(a: DepGraph, levels: Seq<Seq<Seq<char>>>) -> bool {
    &&& forall|l: int| 0 <= l < levels.len() ==> #[trigger] levels[l].len() > 0
    &&& forall|l: int| 0 <= l < levels.len() ==> #[trigger] levels[l].no_duplicates()
    &&& forall|l: int, i: int|
        0 <= l < levels.len() && 0 <= i < levels[l].len() ==> has_node(a, #[trigger] levels[l][i])
    &&& forall|k: int| 0 <= k < a.len() ==> is_placed(levels, #[trigger] a[k].0)
    &&& forall|n: Seq<char>, l1: int, i1: int, l2: int, i2: int|
        #[trigger] placed_at(levels, n, l1, i1) && #[trigger] placed_at(levels, n, l2, i2) ==> l1 == l2
    &&& forall|n: Seq<char>, l: int, i: int, d: Seq<char>|
        #[trigger] placed_at(levels, n, l, i) && #[trigger] has_edge(a, n, d) && has_node(a, d)
            ==> exists|l2: int| l2 < l && #[trigger] placed_on(levels, d, l2)
    &&& forall|k: int| 0 <= k < a.len() && !has_inner_dep(a, #[trigger] a[k].0) ==> placed_on(levels, a[k].0, 0)
    &&& forall|n: Seq<char>, l: int, i: int| #[trigger] placed_at(levels, n, l, i) && l > 0 ==> exists|d: Seq<char>|
        #[trigger] has_edge(a, n, d) && placed_on(levels, d, l - 1)
    &&& forall|l: int, i: int, j: int|
        0 <= l < levels.len() && 0 <= i < j < levels[l].len() ==> position(a, #[trigger] levels[l][i]) < position(
            a,
            #[trigger] levels[l][j],
        )
}

/// A non-empty set of entries of `a`, each with a dependency in the set: no
/// entry of it can ever run first.
#[verifier::opaque]
pub open spec fn is_stuck_set(a: DepGraph, s: Set<Seq<char>>) -> bool {
    &&& exists|n: Seq<char>| #[trigger] s.contains(n)
    &&& forall|n: Seq<char>| #[trigger] s.contains(n) ==> has_node(a, n) && exists|d: Seq<char>|
        #[trigger] has_edge(a, n, d) && s.contains(d)
}

/// `a` holds a dependency cycle: some non-empty set of its entries is stuck.
pub open spec fn has_stuck_set(a: DepGraph) -> bool {
    exists|s: Set<Seq<char>>| #[trigger] is_stuck_set(a, s)
}

/// The number of unplaced entries.
pub open spec fn unplaced(lv: Seq<usize>) -> nat
    decreases lv.len(),
{
    if lv.len() == 0 {
        0
    } else {
        unplaced(lv.drop_last()) + if lv.last() == 0 { 1nat } else { 0nat }
    }
}

proof fn lemma_unplaced_update(lv: Seq<usize>, k: int, v: usize)
    requires
        0 <= k < lv.len(),
        lv[k] == 0,
        v != 0,
    ensures
        unplaced(lv.update(k, v)) + 1 == unplaced(lv),
    decreases lv.len(),
{
    if k == lv.len() - 1 {
        assert(lv.update(k, v).drop_last() =~= lv.drop_last());
    } else {
        lemma_unplaced_update(lv.drop_last(), k, v);
        assert(lv.update(k, v).drop_last() =~= lv.drop_last().update(k, v));
    }
}

/// Every dependency of entry `k` inside `a` stands on a level below `cur`.
pub open spec fn ready(a: DepGraph, lv: Seq<usize>, k: int, cur: int) -> bool {
    forall|d: Seq<char>| #[trigger] a[k].1.contains(d) && has_node(a, d) ==> 1 <= lv[position(a, d)] <= cur
}

/// Entry `k` waits on a dependency that is unplaced or placed on level `cur`.
pub open spec fn blocked(a: DepGraph, lv: Seq<usize>, k: int, cur: int) -> bool {
    exists|d: Seq<char>| #[trigger] a[k].1.contains(d) && has_node(a, d) && (lv[position(a, d)] == 0
        || lv[position(a, d)] == cur + 1)
}

/// Entry `k` has a dependency inside `a` placed exactly one level below it.
pub open spec fn fed(a: DepGraph, lv: Seq<usize>, k: int) -> bool {
    exists|d: Seq<char>| #[trigger] a[k].1.contains(d) && has_node(a, d) && lv[position(a, d)] + 1 == lv[k]
}

/// The names of each level.
pub open spec fn levels_view(levels: Seq<Vec<String>>) -> Seq<Seq<Seq<char>>> {
    levels.map_values(|l: Vec<String>| names_view(l@))
}

/// What the level planner keeps between and within rounds: `lv[k]` is one more
/// than the level of entry `k`, or 0 while it is unplaced; `t` holds the levels.
pub open spec fn plan_state(a: DepGraph, lv: Seq<usize>, t: Seq<Seq<Seq<char>>>, top: int) -> bool {
    &&& lv.len() == a.len()
    &&& forall|k: int| 0 <= k < a.len() ==> #[trigger] lv[k] <= top
    &&& forall|k: int| 0 <= k < a.len() && #[trigger] lv[k] > 0 ==> placed_on(t, a[k].0, lv[k] - 1)
    &&& forall|l: int, i: int| 0 <= l < t.len() && 0 <= i < t[l].len() ==> has_node(a, #[trigger] t[l][i])
        && lv[position(a, t[l][i])] == l + 1
    &&& forall|l: int| 0 <= l < t.len() ==> #[trigger] t[l].no_duplicates()
    &&& forall|l: int, i: int, j: int|
        0 <= l < t.len() && 0 <= i < j < t[l].len() ==> position(a, #[trigger] t[l][i]) < position(a, #[trigger] t[l][j])
    &&& forall|k: int, d: Seq<char>|
        0 <= k < a.len() && #[trigger] lv[k] > 0 && #[trigger] a[k].1.contains(d) && has_node(a, d)
            ==> 1 <= lv[position(a, d)] < lv[k]
}

/// The index of the entry named `name`, if there is one.
fn position_of(a: &Vec<(String, Vec<String>)>, name: &String) -> (r: Option<usize>)
    ensures
        match r {
            Some(q) => q < a@.len() && adjacency_graph(a@)[q as int].0 == name@,
            None => !has_node(adjacency_graph(a@), name@),
        },
{
    let ghost g = adjacency_graph(a@);
    let mut i: usize = 0;
    while i < a.len()
        invariant
            i <= a@.len(),
            g == adjacency_graph(a@),
            forall|k: int| 0 <= k < i ==> g[k].0 != name@,
        decreases a.len() - i,
    {
        if a[i].0 == *name {
            return Some(i);
        }
        assert(g[i as int].0 == a@[i as int].0@);
        i = i + 1;
    }
    None
}

/// Whether every dependency of entry `k` inside the graph is placed on a
/// level below `cur`.
fn deps_ready(a: &Vec<(String, Vec<String>)>, k: usize, lv: &Vec<usize>, cur: usize) -> (r: bool)
    requires
        unique_names(adjacency_graph(a@)),
        k < a@.len(),
        lv@.len() == a@.len(),
    ensures
        r == ready(adjacency_graph(a@), lv@, k as int, cur as int),
{
    let ghost g = adjacency_graph(a@);
    let deps = &a[k].1;
    let ghost dv = names_view(deps@);
    assert(dv == g[k as int].1);
    let mut j: usize = 0;
    while j < deps.len()
        invariant
            j <= deps@.len(),
            g == adjacency_graph(a@),
            unique_names(g),
            dv == names_view(deps@),
            dv == g[k as int].1,
            lv@.len() == a@.len(),
            forall|j2: int| 0 <= j2 < j && has_node(g, #[trigger] dv[j2]) ==> 1 <= lv@[position(g, dv[j2])] <= cur,
        decreases deps.len() - j,
    {
        match position_of(a, &deps[j]) {
            Some(q) => {
                proof {
                    assert(dv[j as int] == deps@[j as int]@);
                    lemma_position(g, dv[j as int]);
                }
                if lv[q] == 0 || lv[q] > cur {
                    proof {
                        assert(g[q as int].0 == dv[j as int]);
                        assert(has_node(g, dv[j as int]));
                        assert(g[k as int].1.contains(dv[j as int]));
                    }
                    return false;
                }
            },
            None => {
                assert(dv[j as int] == deps@[j as int]@);
            },
        }
        j = j + 1;
    }
    proof {
        assert forall|d: Seq<char>| #[trigger] g[k as int].1.contains(d) && has_node(g, d) implies 1 <= lv@[position(g, d)] <= cur by {
            let j2 = choose|j2: int| 0 <= j2 < dv.len() && dv[j2] == d;
        }
    }
    true
}

/// Groups the entries of `dependencies` into levels: level 0 holds the entries
/// without dependencies inside the graph, and each later level the entries
/// whose dependencies all stand on earlier levels. Within a level, entries
/// keep their order in `dependencies`.
pub fn topological_sort(dependencies: &Vec<(String, Vec<String>)>) -> (r: Result<Vec<Vec<String>>, Error>)
    requires
        unique_names(adjacency_graph(dependencies@)),
    ensures
        match r {
            Ok(levels) => is_layering(adjacency_graph(dependencies@), levels_view(levels@)),
            Err(e) => e == Error::CyclicGraph && has_stuck_set(adjacency_graph(dependencies@)),
        },
{
    let ghost g = adjacency_graph(dependencies@);
    let n = dependencies.len();
    let mut lv: Vec<usize> = Vec::new();
    while lv.len() < n
        invariant
            lv@.len() <= n,
            n == g.len(),
            forall|k: int| 0 <= k < lv@.len() ==> lv@[k] == 0,
        decreases n - lv.len(),
    {
        lv.push(0);
    }
    let mut levels: Vec<Vec<String>> = Vec::new();
    proof {
        lemma_unplaced_le(lv@);
        assert(levels_view(levels@) =~= Seq::empty());
    }
    loop
        invariant
            g == adjacency_graph(dependencies@),
            n == g.len(),
            unique_names(g),
            plan_state(g, lv@, levels_view(levels@), levels@.len() as int),
            forall|k: int| 0 <= k < n && #[trigger] lv@[k] > 1 ==> fed(g, lv@, k),
            levels@.len() > 0 ==> forall|k: int| 0 <= k < n && #[trigger] lv@[k] == 0 ==> blocked(g, lv@, k, levels@.len() - 1),
            forall|l: int| 0 <= l < levels@.len() ==> #[trigger] levels_view(levels@)[l].len() > 0,
            levels@.len() > 0 ==> forall|k: int| 0 <= k < n && !has_inner_dep(g, #[trigger] g[k].0) ==> lv@[k] == 1,
            levels@.len() + unplaced(lv@) <= n,
        decreases unplaced(lv@),
    {
        let cur = levels.len();
        let ghost lv0 = lv@;
        let ghost lvs0 = levels_view(levels@);
        let mut this: Vec<String> = Vec::new();
        let mut placed: usize = 0;
        let mut k: usize = 0;
        proof {
            assert(names_view(this@) =~= Seq::empty());
            assert(plan_state(g, lv@, lvs0.push(names_view(this@)), cur + 1)) by {
                let t = lvs0.push(names_view(this@));
                assert forall|k2: int| 0 <= k2 < n && #[trigger] lv@[k2] > 0 implies placed_on(t, g[k2].0, lv@[k2] - 1) by {
                    assert(placed_on(lvs0, g[k2].0, lv@[k2] - 1));
                    let i = choose|i: int| #[trigger] placed_at(lvs0, g[k2].0, lv@[k2] - 1, i);
                    assert(placed_at(t, g[k2].0, lv@[k2] - 1, i));
                }
                assert forall|l: int, i: int| 0 <= l < t.len() && 0 <= i < t[l].len() implies has_node(g, #[trigger] t[l][i])
                    && lv@[position(g, t[l][i])] == l + 1 by {
                    assert(t[l] == lvs0[l]);
                }
                assert forall|l: int| 0 <= l < t.len() implies #[trigger] t[l].no_duplicates() by {
                    if l < lvs0.len() {
                        assert(t[l] == lvs0[l]);
                    }
                }
            }
        }
        while k < n
            invariant
                g == adjacency_graph(dependencies@),
                n == g.len(),
                unique_names(g),
                k <= n,
                cur == levels@.len(),
                cur + unplaced(lv0) <= n,
                lv0.len() == n,
                forall|k2: int| 0 <= k2 < n ==> #[trigger] lv0[k2] <= cur,
                forall|k2: int| k <= k2 < n ==> #[trigger] lv@[k2] == lv0[k2],
                lvs0 == levels_view(levels@),
                plan_state(g, lv@, lvs0.push(names_view(this@)), cur + 1),
                unplaced(lv@) + placed == unplaced(lv0),
                placed <= k,
                placed == 0 ==> lv@ == lv0,
                forall|k2: int| 0 <= k2 < n ==> #[trigger] lv@[k2] <= cur || lv@[k2] == cur + 1,
                forall|k2: int| 0 <= k2 < n && lv0[k2] != 0 ==> #[trigger] lv@[k2] == lv0[k2],
                forall|k2: int| 0 <= k2 < k && #[trigger] lv@[k2] == 0 ==> blocked(g, lv@, k2, cur as int),
                forall|k2: int| 0 <= k2 < n && lv0[k2] == 0 ==> #[trigger] lv@[k2] == 0 || lv@[k2] == cur + 1,
                forall|k2: int| 0 <= k2 < n && #[trigger] lv@[k2] > 1 ==> fed(g, lv@, k2),
                cur > 0 ==> forall|k2: int| 0 <= k2 < n && #[trigger] lv0[k2] == 0 ==> blocked(g, lv0, k2, cur - 1),
                cur > 0 ==> forall|k2: int| 0 <= k2 < n && !has_inner_dep(g, #[trigger] g[k2].0) ==> lv@[k2] == 1,
                cur == 0 ==> forall|k2: int| 0 <= k2 < k && !has_inner_dep(g, #[trigger] g[k2].0) ==> lv@[k2] == 1,
                this@.len() == placed,
                forall|i: int| 0 <= i < this@.len() ==> position(g, #[trigger] names_view(this@)[i]) < k,
            decreases n - k,
        {
            if lv[k] == 0 && deps_ready(dependencies, k, &lv, cur) {
                let ghost lv1 = lv@;
                let ghost t1 = lvs0.push(names_view(this@));
                proof {
                    lemma_unplaced_update(lv1, k as int, 1);
                }
                lv.set(k, cur + 1);
                this.push(dependencies[k].0.clone());
                proof {
                    lemma_unplaced_update(lv1, k as int, (cur + 1) as usize);
                    let t2 = lvs0.push(names_view(this@));
                    let name = g[k as int].0;
                    assert(names_view(this@) =~= t1[cur as int].push(name));
                    assert(t2 =~= t1.update(cur as int, t1[cur as int].push(name)));
                    assert(plan_state(g, lv@, t2, cur + 1)) by {
                        assert forall|k2: int| 0 <= k2 < n && #[trigger] lv@[k2] > 0 implies placed_on(t2, g[k2].0, lv@[k2] - 1) by {
                            if k2 == k {
                                assert(placed_at(t2, name, cur as int, t1[cur as int].len() as int));
                            } else {
                                assert(lv@[k2] == lv1[k2]);
                                let i = choose|i: int| #[trigger] placed_at(t1, g[k2].0, lv1[k2] - 1, i);
                                assert(placed_at(t2, g[k2].0, lv1[k2] - 1, i));
                            }
                        }
                        assert forall|l: int, i: int| 0 <= l < t2.len() && 0 <= i < t2[l].len() implies has_node(g, #[trigger] t2[l][i])
                            && lv@[position(g, t2[l][i])] == l + 1 by {
                            if l == cur && i == t1[cur as int].len() {
                                assert(t2[l][i] == name);
                                lemma_position(g, name);
                            } else {
                                assert(t2[l][i] == t1[l][i]);
                                lemma_position(g, t1[l][i]);
                            }
                        }
                        assert forall|l: int, i: int, j: int|
                            0 <= l < t2.len() && 0 <= i < j < t2[l].len() implies position(g, #[trigger] t2[l][i]) < position(g, #[trigger] t2[l][j]) by {
                            lemma_position(g, name);
                            if l == cur && j == t1[cur as int].len() {
                                assert(t2[l][i] == names_view(this@)[i]);
                                assert(t2[l][j] == name);
                            } else {
                                assert(t2[l][i] == t1[l][i] && t2[l][j] == t1[l][j]);
                            }
                        }
                        assert forall|l: int| 0 <= l < t2.len() implies #[trigger] t2[l].no_duplicates() by {
                            if l == cur {
                                assert forall|x: int, y: int| 0 <= x < t2[l].len() && 0 <= y < t2[l].len() && x != y implies t2[l][x] != t2[l][y] by {
                                    if x < t1[l].len() && y < t1[l].len() {
                                        assert(t1[l].no_duplicates());
                                    } else if x < t1[l].len() {
                                        assert(lv1[position(g, t1[l][x])] == l + 1);
                                        lemma_position(g, name);
                                    } else {
                                        assert(lv1[position(g, t1[l][y])] == l + 1);
                                        lemma_position(g, name);
                                    }
                                }
                            } else {
                                assert(t2[l] == t1[l]);
                            }
                        }
                        assert forall|k2: int, d: Seq<char>|
                            0 <= k2 < n && #[trigger] lv@[k2] > 0 && #[trigger] g[k2].1.contains(d) && has_node(g, d)
                            implies 1 <= lv@[position(g, d)] < lv@[k2] by {
                            lemma_position(g, d);
                            if k2 == k {
                                assert(ready(g, lv1, k as int, cur as int));
                            } else {
                                assert(lv1[k2] > 0);
                            }
                        }
                    }
                    assert forall|k2: int| 0 <= k2 < k + 1 && #[trigger] lv@[k2] == 0 implies blocked(g, lv@, k2, cur as int) by {
                        assert(blocked(g, lv1, k2, cur as int));
                        let d = choose|d: Seq<char>| #[trigger] g[k2].1.contains(d) && has_node(g, d) && (lv1[position(g, d)] == 0
                            || lv1[position(g, d)] == cur + 1);
                        lemma_position(g, d);
                    }
                    if cur == 0 {
                        assert forall|k2: int| 0 <= k2 < k + 1 && !has_inner_dep(g, #[trigger] g[k2].0) implies lv@[k2] == 1 by {}
                    }
                }
                placed = placed + 1;
            } else {
                proof {
                    if lv@[k as int] == 0 {
                        assert(!ready(g, lv@, k as int, cur as int));
                        let d = choose|d: Seq<char>| !(#[trigger] g[k as int].1.contains(d) && has_node(g, d) ==> 1 <= lv@[position(g, d)] <= cur);
                        lemma_position(g, d);
                        assert(blocked(g, lv@, k as int, cur as int));
                    }
                    if cur == 0 && !has_inner_dep(g, g[k as int].0) {
                        assert(lv@[k as int] == 0);
                        assert forall|d: Seq<char>| #[trigger] g[k as int].1.contains(d) && has_node(g, d) implies 1 <= lv@[position(g, d)] <= cur by {
                            assert(has_edge(g, g[k as int].0, d));
                        }
                    }
                }
            }
            k = k + 1;
        }
        if placed == 0 {
            let mut j: usize = 0;
            while j < n
                invariant
                    j <= n,
                    n == lv@.len(),
                    g == adjacency_graph(dependencies@),
                    n == g.len(),
                    unique_names(g),
                    lv@ == lv0,
                    forall|k2: int| 0 <= k2 < n ==> #[trigger] lv0[k2] <= cur,
                    forall|k2: int| 0 <= k2 < n && #[trigger] lv@[k2] == 0 ==> blocked(g, lv@, k2, cur as int),
                    forall|k2: int| 0 <= k2 < j ==> lv@[k2] != 0,
                decreases n - j,
            {
                if lv[j] == 0 {
                    proof {
                        lemma_stuck(g, lv@, cur as int, j as int);
                    }
                    return Err(Error::CyclicGraph);
                }
                j = j + 1;
            }
            proof {
                assert(names_view(this@) =~= Seq::empty());
                lemma_layering_done(g, lv@, lvs0, cur as int);
            }
            return Ok(levels);
        }
        let ghost t3 = lvs0.push(names_view(this@));
        assert(this@.len() > 0);
        levels.push(this);
        proof {
            assert(levels_view(levels@) =~= t3);
        }
    }
}

/// Unplaced entries that each wait on an unplaced entry form a stuck set.
proof fn lemma_stuck(g: DepGraph, lv: Seq<usize>, cur: int, j: int)
    requires
        unique_names(g),
        lv.len() == g.len(),
        0 <= j < g.len(),
        lv[j] == 0,
        forall|k2: int| 0 <= k2 < g.len() ==> #[trigger] lv[k2] <= cur,
        forall|k2: int| 0 <= k2 < g.len() && #[trigger] lv[k2] == 0 ==> blocked(g, lv, k2, cur),
    ensures
        has_stuck_set(g),
{
    let s = Set::new(|x: Seq<char>| exists|k2: int| 0 <= k2 < g.len() && lv[k2] == 0 && #[trigger] g[k2].0 == x);
    assert(s.contains(g[j].0));
    assert forall|x: Seq<char>| #[trigger] s.contains(x) implies has_node(g, x) && exists|d: Seq<char>|
        #[trigger] has_edge(g, x, d) && s.contains(d) by {
        let k2 = choose|k2: int| 0 <= k2 < g.len() && lv[k2] == 0 && #[trigger] g[k2].0 == x;
        assert(blocked(g, lv, k2, cur));
        let d = choose|d: Seq<char>| #[trigger] g[k2].1.contains(d) && has_node(g, d) && (lv[position(g, d)] == 0
            || lv[position(g, d)] == cur + 1);
        lemma_position(g, d);
        assert(lv[position(g, d)] == 0);
        assert(has_edge(g, x, d));
        assert(s.contains(d));
    }
    reveal(is_stuck_set);
    assert(is_stuck_set(g, s));
}

/// A stuck set has a member, which is an entry.
pub proof fn lemma_stuck_nonempty(a: DepGraph, s: Set<Seq<char>>)
    requires
        is_stuck_set(a, s),
    ensures
        exists|n: Seq<char>| #[trigger] s.contains(n) && has_node(a, n),
{
    reveal(is_stuck_set);
    let n = choose|n: Seq<char>| #[trigger] s.contains(n);
    assert(s.contains(n) && has_node(a, n));
}

/// Each member of a stuck set waits on a member.
pub proof fn lemma_stuck_member(a: DepGraph, s: Set<Seq<char>>, n: Seq<char>)
    requires
        is_stuck_set(a, s),
        s.contains(n),
    ensures
        exists|d: Seq<char>| #[trigger] has_edge(a, n, d) && s.contains(d),
{
    reveal(is_stuck_set);
}

proof fn lemma_unplaced_le(lv: Seq<usize>)
    ensures
        unplaced(lv) <= lv.len(),
    decreases lv.len(),
{
    if lv.len() > 0 {
        lemma_unplaced_le(lv.drop_last());
    }
}

/// When every entry is placed, the kept state is a layering.
proof fn lemma_layering_done(g: DepGraph, lv: Seq<usize>, t: Seq<Seq<Seq<char>>>, cur: int)
    requires
        unique_names(g),
        plan_state(g, lv, t, cur),
        forall|k: int| 0 <= k < g.len() ==> lv[k] != 0,
        forall|l: int| 0 <= l < t.len() ==> #[trigger] t[l].len() > 0,
        cur > 0 ==> forall|k: int| 0 <= k < g.len() && !has_inner_dep(g, #[trigger] g[k].0) ==> lv[k] == 1,
        cur == t.len(),
        forall|k: int| 0 <= k < g.len() && #[trigger] lv[k] > 1 ==> fed(g, lv, k),
    ensures
        is_layering(g, t),
{
    assert forall|n: Seq<char>, l: int, i: int| #[trigger] placed_at(t, n, l, i) && l > 0 implies exists|d: Seq<char>|
        #[trigger] has_edge(g, n, d) && placed_on(t, d, l - 1) by {
        assert(has_node(g, t[l][i]));
        lemma_position(g, n);
        let k = position(g, n);
        assert(lv[k] == l + 1);
        assert(fed(g, lv, k));
        let d = choose|d: Seq<char>| #[trigger] g[k].1.contains(d) && has_node(g, d) && lv[position(g, d)] + 1 == lv[k];
        lemma_position(g, d);
        let q = position(g, d);
        assert(placed_on(t, g[q].0, lv[q] - 1));
        assert(has_edge(g, n, d));
    }
    assert forall|k: int| 0 <= k < g.len() implies is_placed(t, #[trigger] g[k].0) by {
        assert(lv[k] > 0);
        assert(placed_on(t, g[k].0, lv[k] - 1));
    }
    assert forall|n: Seq<char>, l1: int, i1: int, l2: int, i2: int|
        #[trigger] placed_at(t, n, l1, i1) && #[trigger] placed_at(t, n, l2, i2) implies l1 == l2 by {
        assert(lv[position(g, t[l1][i1])] == l1 + 1);
        assert(lv[position(g, t[l2][i2])] == l2 + 1);
    }
    assert forall|n: Seq<char>, l: int, i: int, d: Seq<char>|
        #[trigger] placed_at(t, n, l, i) && #[trigger] has_edge(g, n, d) && has_node(g, d)
        implies exists|l2: int| l2 < l && #[trigger] placed_on(t, d, l2) by {
        assert(has_node(g, t[l][i]));
        lemma_position(g, n);
        let k = position(g, n);
        assert(lv[k] == l + 1);
        let e = choose|e: int| 0 <= e < g.len() && #[trigger] g[e].0 == n && g[e].1.contains(d);
        assert(e == k);
        lemma_position(g, d);
        let q = position(g, d);
        assert(1 <= lv[q] < lv[k]);
        assert(placed_on(t, g[q].0, lv[q] - 1));
    }
    assert forall|k: int| 0 <= k < g.len() && !has_inner_dep(g, #[trigger] g[k].0) implies placed_on(t, g[k].0, 0) by {
        assert(lv[k] > 0);
        assert(lv[k] <= cur);
        assert(placed_on(t, g[k].0, lv[k] - 1));
    }
}

} // verus!
