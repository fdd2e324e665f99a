use vstd::prelude::*;
use crate::error::Error;
use crate::task::{TaskConfig, copy_names, names_view};

verus! {

/// What the dispatcher does next.
pub enum Step {
    /// Launch every task of the level with this index, then await them all.
    RunLevel(usize),
    /// Every level succeeded: the run ends with exit code 0.
    Done,
    /// A level had failures: the run stops before the next level.
    Failed(Error),
}

/// How one task of a level is handled.
pub enum UnitAction {
    /// The cache holds a result: record exit code 0 without running the task.
    UseCached,
    /// Run the task.
    Run,
}

/// The names, in order, of the outcomes with a non-zero exit code.
pub open spec fn failed_names(outcomes: Seq<(String, i32)>) -> Seq<Seq<char>>
    decreases outcomes.len(),
{
    if outcomes.len() == 0 {
        Seq::empty()
    } else {
        let rest = failed_names(outcomes.drop_last());
        if outcomes.last().1 != 0 {
            rest.push(outcomes.last().0@)
        } else {
            rest
        }
    }
}

proof fn lemma_failed_names_empty(outcomes: Seq<(String, i32)>)
    ensures
        failed_names(outcomes).len() == 0 <==> forall|i: int| 0 <= i < outcomes.len() ==> #[trigger] outcomes[i].1 == 0,
    decreases outcomes.len(),
{
    if outcomes.len() > 0 {
        let p = outcomes.drop_last();
        lemma_failed_names_empty(p);
        assert forall|i: int| 0 <= i < p.len() implies #[trigger] p[i] == outcomes[i] by {}
        if failed_names(outcomes).len() == 0 {
            assert forall|i: int| 0 <= i < outcomes.len() implies #[trigger] outcomes[i].1 == 0 by {
                if i < p.len() {
                    assert(p[i] == outcomes[i]);
                }
            }
        }
    }
}

/// The first step of a run over `n_levels` levels.
pub fn first_step(n_levels: usize) -> (r: Step)
    ensures
        n_levels == 0 ==> r is Done,
        n_levels > 0 ==> r == Step::RunLevel(0),
{
    if n_levels == 0 {
        Step::Done
    } else {
        Step::RunLevel(0)
    }
}

/// The exit code recorded for a task: its process's code, or -1 when it could
/// not be run.
pub fn unit_exit_code(run: Option<i32>) -> (r: i32)
    ensures
        r == match run {
            Some(c) => c as int,
            None => -1,
        },
{
    match run {
        Some(c) => c,
        None => -1,
    }
}

/// Whether a task is run or taken from the cache: only a task with caching on
/// and a stored result is skipped.
pub fn unit_action(task_config: &TaskConfig, cache_hit: bool) -> (r: UnitAction)
    ensures
        r is UseCached <==> task_config.cache_enabled() && cache_hit,
{
    if task_config.cache == Some(true) && cache_hit {
        UnitAction::UseCached
    } else {
        UnitAction::Run
    }
}

/// Whether the result of a task that was run is written to the cache: only on
/// success, and only with caching on.
pub fn should_store(task_config: &TaskConfig, exit_code: i32) -> (r: bool)
    ensures
        r <==> task_config.cache_enabled() && exit_code == 0,
{
    task_config.cache == Some(true) && exit_code == 0
}

/// The user arguments a task receives: all of them for a requested task,
/// none for a task that runs only as a dependency.
pub fn task_args(task_name: &String, requested: &[String], args: &Vec<String>) -> (r: Vec<String>)
    ensures
        names_view(requested@).contains(task_name@) ==> r@ == args@,
        !names_view(requested@).contains(task_name@) ==> r@.len() == 0,
{
    let mut i: usize = 0;
    while i < requested.len()
        invariant
            i <= requested@.len(),
            forall|k: int| 0 <= k < i ==> requested@[k]@ != task_name@,
        decreases requested.len() - i,
    {
        if requested[i] == *task_name {
            proof {
                assert(names_view(requested@)[i as int] == task_name@);
            }
            return copy_names(args);
        }
        i = i + 1;
    }
    proof {
        assert forall|k: int| 0 <= k < requested@.len() implies names_view(requested@)[k] != task_name@ by {
            assert(names_view(requested@)[k] == requested@[k]@);
        }
    }
    Vec::new()
}

/// Fails with the names of the tasks of a level whose exit code is not 0.
pub fn level_result(outcomes: &Vec<(String, i32)>) -> (r: Result<(), Error>)
    ensures
        r is Ok <==> forall|i: int| 0 <= i < outcomes@.len() ==> #[trigger] outcomes@[i].1 == 0,
        match r {
            Ok(()) => true,
            Err(e) => e is TasksFailed && names_view(e->TasksFailed_tasks@) == failed_names(outcomes@),
        },
{
    let mut failed: Vec<String> = Vec::new();
    let mut i: usize = 0;
    while i < outcomes.len()
        invariant
            i <= outcomes@.len(),
            names_view(failed@) == failed_names(outcomes@.subrange(0, i as int)),
        decreases outcomes.len() - i,
    {
        let ghost before = failed@;
        if outcomes[i].1 != 0 {
            failed.push(outcomes[i].0.clone());
            assert(names_view(failed@) =~= names_view(before).push(outcomes@[i as int].0@));
        }
        assert(outcomes@.subrange(0, i + 1).drop_last() =~= outcomes@.subrange(0, i as int));
        i = i + 1;
    }
    assert(outcomes@.subrange(0, outcomes@.len() as int) =~= outcomes@);
    proof {
        lemma_failed_names_empty(outcomes@);
    }
    if failed.len() == 0 {
        Ok(())
    } else {
        Err(Error::TasksFailed { tasks: failed })
    }
}

/// The step after level `level` of `n_levels` ended with `outcomes`.
pub fn after_level(level: usize, n_levels: usize, outcomes: &Vec<(String, i32)>) -> (r: Step)
    requires
        level < n_levels,
    ensures
        (forall|i: int| 0 <= i < outcomes@.len() ==> #[trigger] outcomes@[i].1 == 0) ==> (if level + 1
            < n_levels {
            r == Step::RunLevel((level + 1) as usize)
        } else {
            r is Done
        }),
        !(forall|i: int| 0 <= i < outcomes@.len() ==> #[trigger] outcomes@[i].1 == 0) ==> (r is Failed && {
            let e = r->Failed_0;
            e is TasksFailed && names_view(e->TasksFailed_tasks@) == failed_names(outcomes@)
        }),
{
    match level_result(outcomes) {
        Ok(()) => {
            if level + 1 < n_levels {
                Step::RunLevel(level + 1)
            } else {
                Step::Done
            }
        },
        Err(e) => Step::Failed(e),
    }
}

/// The exit code of a run whose failing level ended with `outcomes`: the
/// failed task's own code when exactly one failed, 1 otherwise; 0 when none
/// failed.
pub fn exit_status(outcomes: &Vec<(String, i32)>) -> (r: i32)
    ensures
        failed_names(outcomes@).len() == 0 ==> r == 0,
        failed_names(outcomes@).len() == 1 ==> exists|i: int| 0 <= i < outcomes@.len() && #[trigger] outcomes@[i].1 == r && r != 0,
        failed_names(outcomes@).len() > 1 ==> r == 1,
{
    let mut count: usize = 0;
    let mut code: i32 = 0;
    let mut i: usize = 0;
    while i < outcomes.len()
        invariant
            i <= outcomes@.len(),
            count == failed_names(outcomes@.subrange(0, i as int)).len(),
            count <= i,
            count == 0 ==> code == 0,
            count >= 1 ==> code != 0 && exists|j: int| 0 <= j < i && #[trigger] outcomes@[j].1 == code,
        decreases outcomes.len() - i,
    {
        assert(outcomes@.subrange(0, i + 1).drop_last() =~= outcomes@.subrange(0, i as int));
        if outcomes[i].1 != 0 {
            if count == 0 {
                code = outcomes[i].1;
            }
            count = count + 1;
        }
        i = i + 1;
    }
    assert(outcomes@.subrange(0, outcomes@.len() as int) =~= outcomes@);
    if count == 0 {
        0
    } else if count == 1 {
        code
    } else {
        1
    }
}

} // verus!
