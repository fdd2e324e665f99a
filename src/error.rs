use vstd::prelude::*;
use vstd::string::*;

verus! {

/// The kinds of failure that planning and running tasks can report.
pub enum Error {
    /// A requested task is not in the configuration.
    UnknownTask { task: String },
    /// A task lists a dependency that is not in the configuration.
    UnknownDependency { task: String, dependency: String },
    /// The named task lies on a cycle of the dependency relation.
    CyclicDependency { task: String },
    /// The level planner could not place every task of a graph.
    CyclicGraph,
    /// A task defines both a command and a script.
    CommandAndScript,
    /// A task defines neither a command nor a script.
    NoCommandOrScript,
    /// One or more tasks of a level ended with a non-zero exit code.
    TasksFailed { tasks: Vec<String> },
}

/// Names joined by `", "`.
pub open spec fn joined(names: Seq<Seq<char>>) -> Seq<char>
    decreases names.len(),
{
    if names.len() == 0 {
        Seq::empty()
    } else if names.len() == 1 {
        names[0]
    } else {
        joined(names.drop_last()) + ", "@ + names.last()
    }
}

/// The human-readable text of an error.
pub open spec fn error_text(e: Error) -> Seq<char> {
    match e {
        Error::UnknownTask { task } => "Task '"@ + task@ + "' not found"@,
        Error::UnknownDependency { task, dependency } =>
            "Dependency '"@ + dependency@ + "' of task '"@ + task@ + "' not found"@,
        Error::CyclicDependency { task } =>
            "Circular dependency detected involving task '"@ + task@ + "'"@,
        Error::CyclicGraph => "Circular dependency detected in task graph"@,
        Error::CommandAndScript => "Task cannot have both 'command' and 'script' defined"@,
        Error::NoCommandOrScript => "Task must have either 'command' or 'script' defined"@,
        Error::TasksFailed { tasks } => "Tasks failed: "@ + joined(tasks@.map_values(|s: String| s@)),
    }
}

impl Error {
    /// The human-readable text of the error.
    pub fn message(&self) -> (r: String)
        ensures
            r@ == error_text(*self),
    {
        match self {
            Error::UnknownTask { task } => {
                let mut r = String::from_str("Task '");
                r.append(task.as_str());
                r.append("' not found");
                r
            },
            Error::UnknownDependency { task, dependency } => {
                let mut r = String::from_str("Dependency '");
                r.append(dependency.as_str());
                r.append("' of task '");
                r.append(task.as_str());
                r.append("' not found");
                r
            },
            Error::CyclicDependency { task } => {
                let mut r = String::from_str("Circular dependency detected involving task '");
                r.append(task.as_str());
                r.append("'");
                r
            },
            Error::CyclicGraph => String::from_str("Circular dependency detected in task graph"),
            Error::CommandAndScript => String::from_str(
                "Task cannot have both 'command' and 'script' defined",
            ),
            Error::NoCommandOrScript => String::from_str(
                "Task must have either 'command' or 'script' defined",
            ),
            Error::TasksFailed { tasks } => {
                let mut r = String::from_str("Tasks failed: ");
                let j = join_names(tasks);
                r.append(j.as_str());
                r
            },
        }
    }
}

/// Joins names with `", "`.
pub fn join_names(names: &Vec<String>) -> (r: String)
    ensures
        r@ == joined(names@.map_values(|s: String| s@)),
{
    let ghost view = names@.map_values(|s: String| s@);
    let mut r = String::new();
    let mut i: usize = 0;
    while i < names.len()
        invariant
            i <= names.len(),
            view == names@.map_values(|s: String| s@),
            r@ == joined(view.subrange(0, i as int)),
        decreases names.len() - i,
    {
        if i > 0 {
            r.append(", ");
        }
        r.append(names[i].as_str());
        proof {
            let s = view.subrange(0, i + 1);
            assert(s.drop_last() =~= view.subrange(0, i as int));
        }
        i = i + 1;
    }
    assert(view.subrange(0, names.len() as int) =~= view);
    r
}

} // verus!
