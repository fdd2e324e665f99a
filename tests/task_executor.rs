use cuenv_tasks::dispatch::{after_level, exit_status, first_step, level_result, should_store, task_args, unit_action, unit_exit_code, Step, UnitAction};
use cuenv_tasks::error::Error;
use cuenv_tasks::executor::{EnvManager, TaskExecutor};
use cuenv_tasks::runner::{join_path, resolve_invocation};
use cuenv_tasks::task::TaskConfig;

fn task(command: &str, deps: &[&str]) -> TaskConfig {
    let mut t = TaskConfig::with_command(command.to_string());
    if !deps.is_empty() {
        t.dependencies = Some(deps.iter().map(|d| d.to_string()).collect());
    }
    t
}

fn described(command: &str, description: &str, deps: &[&str]) -> TaskConfig {
    let mut t = task(command, deps);
    t.description = Some(description.to_string());
    t
}

fn executor(tasks: Vec<(&str, TaskConfig)>) -> TaskExecutor {
    let mut manager = EnvManager::new();
    for (name, config) in tasks {
        manager.add_task(name.to_string(), config);
    }
    TaskExecutor::new(manager, ".".to_string())
}

#[test]
fn test_simple_task_discovery() {
    let executor = executor(vec![
        ("build", described("echo 'Building...'", "Build the project", &[])),
        ("test", described("echo 'Testing...'", "Run tests", &[])),
    ]);
    let tasks = executor.list_tasks();
    assert_eq!(tasks.len(), 2);
    let task_names: Vec<&String> = tasks.iter().map(|(name, _)| name).collect();
    assert!(task_names.contains(&&"build".to_string()));
    assert!(task_names.contains(&&"test".to_string()));
}

#[test]
fn test_task_dependency_resolution() {
    let executor = executor(vec![
        ("build", described("echo 'Building...'", "Build the project", &["test"])),
        ("test", described("echo 'Testing...'", "Run tests", &[])),
    ]);
    let plan = executor.build_execution_plan(&["build".to_string()]).ok().unwrap();
    assert_eq!(plan.levels.len(), 2);
    assert_eq!(plan.levels[0], vec!["test"]);
    assert_eq!(plan.levels[1], vec!["build"]);
}

#[test]
fn test_circular_dependency_detection() {
    let executor = executor(vec![
        ("task1", task("echo 'Task 1'", &["task2"])),
        ("task2", task("echo 'Task 2'", &["task1"])),
    ]);
    let result = executor.build_execution_plan(&["task1".to_string()]);
    assert!(result.is_err());
    assert!(result.err().unwrap().message().contains("Circular dependency"));
}

#[test]
fn test_missing_task_error() {
    let executor = executor(vec![("build", task("echo 'Building...'", &[]))]);
    let result = executor.build_execution_plan(&["nonexistent".to_string()]);
    assert!(result.is_err());
    assert!(result.err().unwrap().message().contains("not found"));
}

#[test]
fn test_missing_dependency_error() {
    let executor = executor(vec![("build", task("echo 'Building...'", &["nonexistent"]))]);
    let result = executor.build_execution_plan(&["build".to_string()]);
    assert!(result.is_err());
    assert!(result.err().unwrap().message().contains("not found"));
}

#[test]
fn test_complex_dependency_graph() {
    let executor = executor(vec![
        ("deploy", task("echo 'Deploying...'", &["build", "test"])),
        ("build", task("echo 'Building...'", &["compile"])),
        ("test", task("echo 'Testing...'", &["compile"])),
        ("compile", task("echo 'Compiling...'", &[])),
    ]);
    let plan = executor.build_execution_plan(&["deploy".to_string()]).ok().unwrap();
    assert_eq!(plan.levels.len(), 3);
    assert_eq!(plan.levels[0], vec!["compile"]);
    assert_eq!(plan.levels[1].len(), 2);
    assert!(plan.levels[1].contains(&"build".to_string()));
    assert!(plan.levels[1].contains(&"test".to_string()));
    assert_eq!(plan.levels[2], vec!["deploy"]);
}

#[test]
fn linear_chain_levels() {
    let executor = executor(vec![
        ("a", task("true", &[])),
        ("b", task("true", &["a"])),
        ("c", task("true", &["b"])),
    ]);
    let plan = executor.build_execution_plan(&["c".to_string()]).ok().unwrap();
    assert_eq!(plan.levels, vec![vec!["a"], vec!["b"], vec!["c"]]);
    assert_eq!(plan.tasks.len(), 3);
}

#[test]
fn diamond_levels() {
    let executor = executor(vec![
        ("compile", task("true", &[])),
        ("build", task("true", &["compile"])),
        ("test", task("true", &["compile"])),
        ("deploy", task("true", &["build", "test"])),
    ]);
    let plan = executor.build_execution_plan(&["deploy".to_string()]).ok().unwrap();
    assert_eq!(plan.levels.len(), 3);
    assert_eq!(plan.levels[0], vec!["compile"]);
    let mut middle = plan.levels[1].clone();
    middle.sort();
    assert_eq!(middle, vec!["build", "test"]);
    assert_eq!(plan.levels[2], vec!["deploy"]);
}

#[test]
fn cycle_names_circular() {
    let executor = executor(vec![("t1", task("true", &["t2"])), ("t2", task("true", &["t1"]))]);
    let err = executor.build_execution_plan(&["t1".to_string()]).err().unwrap();
    assert!(matches!(err, Error::CyclicDependency { .. }));
    assert!(err.message().to_lowercase().contains("circular"));
    assert_eq!(err.message(), "Circular dependency detected involving task 't1'");
}

#[test]
fn self_cycle_fails() {
    let executor = executor(vec![("loop", task("true", &["loop"]))]);
    let err = executor.build_execution_plan(&["loop".to_string()]).err().unwrap();
    assert_eq!(err.message(), "Circular dependency detected involving task 'loop'");
}

#[test]
fn missing_dependency_names_ghost() {
    let executor = executor(vec![("build", task("true", &["ghost"]))]);
    let err = executor.build_execution_plan(&["build".to_string()]).err().unwrap();
    let text = err.message();
    assert!(text.contains("ghost"));
    assert!(text.contains("not found"));
    assert_eq!(text, "Dependency 'ghost' of task 'build' not found");
}

#[test]
fn unknown_task_message() {
    let executor = executor(vec![]);
    let err = executor.build_execution_plan(&["x".to_string()]).err().unwrap();
    assert_eq!(err.message(), "Task 'x' not found");
}

#[test]
fn unreachable_task_left_out() {
    let executor = executor(vec![
        ("a", task("true", &[])),
        ("b", task("true", &["a"])),
        ("other", task("true", &[])),
    ]);
    let plan = executor.build_execution_plan(&["b".to_string()]).ok().unwrap();
    let all: Vec<String> = plan.levels.concat();
    assert!(!all.contains(&"other".to_string()));
    assert!(!plan.tasks.iter().any(|(n, _)| n == "other"));
}

#[test]
fn no_dependencies_on_level_zero() {
    let executor = executor(vec![("a", task("true", &[])), ("b", task("true", &[]))]);
    let plan = executor.build_execution_plan(&["a".to_string(), "b".to_string()]).ok().unwrap();
    assert_eq!(plan.levels, vec![vec!["a", "b"]]);
}

#[test]
fn shared_dependency_planned_once() {
    let executor = executor(vec![
        ("base", task("true", &[])),
        ("x", task("true", &["base", "base"])),
        ("y", task("true", &["base"])),
    ]);
    let plan = executor.build_execution_plan(&["x".to_string(), "y".to_string(), "x".to_string()]).ok().unwrap();
    assert_eq!(plan.levels.len(), 2);
    assert_eq!(plan.levels[0], vec!["base"]);
    assert_eq!(plan.levels[1].len(), 2);
}

#[test]
fn add_task_replaces() {
    let mut manager = EnvManager::new();
    manager.add_task("a".to_string(), described("one", "first", &[]));
    manager.add_task("a".to_string(), described("two", "second", &[]));
    let listing = manager.list_tasks();
    assert_eq!(listing, vec![("a".to_string(), Some("second".to_string()))]);
}

#[test]
fn command_with_arguments() {
    let t = task("cargo build", &[]);
    let inv = resolve_invocation(&t, &"/proj".to_string(), &vec!["--release".to_string(), "-v".to_string()]).ok().unwrap();
    assert_eq!(inv.shell, "sh");
    assert_eq!(inv.payload, "cargo build --release -v");
    assert_eq!(inv.dir, "/proj");
}

#[test]
fn script_ignores_arguments() {
    let mut t = TaskConfig::with_command(String::new());
    t.command = None;
    t.script = Some("echo a\necho b".to_string());
    t.shell = Some("bash".to_string());
    t.working_dir = Some("sub".to_string());
    let inv = resolve_invocation(&t, &"/proj".to_string(), &vec!["x".to_string()]).ok().unwrap();
    assert_eq!(inv.shell, "bash");
    assert_eq!(inv.payload, "echo a\necho b");
    assert_eq!(inv.dir, "/proj/sub");
}

#[test]
fn neither_command_nor_script_rejected() {
    let mut t = task("x", &[]);
    t.command = None;
    let err = resolve_invocation(&t, &".".to_string(), &vec![]).err().unwrap();
    assert!(matches!(err, Error::NoCommandOrScript));
    assert_eq!(err.message(), "Task must have either 'command' or 'script' defined");
}

#[test]
fn both_command_and_script_rejected() {
    let mut t = task("x", &[]);
    t.script = Some("y".to_string());
    let err = resolve_invocation(&t, &".".to_string(), &vec![]).err().unwrap();
    assert!(matches!(err, Error::CommandAndScript));
    assert_eq!(err.message(), "Task cannot have both 'command' and 'script' defined");
}

#[test]
fn paths_join() {
    assert_eq!(join_path(&"/a".to_string(), &"b".to_string()), "/a/b");
    assert_eq!(join_path(&"/a/".to_string(), &"b".to_string()), "/a/b");
    assert_eq!(join_path(&"/a".to_string(), &"/abs".to_string()), "/abs");
    assert_eq!(join_path(&"".to_string(), &"b".to_string()), "b");
}

#[test]
fn level_failures_reported() {
    let outcomes = vec![("a".to_string(), 0), ("b".to_string(), 2), ("c".to_string(), -1)];
    let err = level_result(&outcomes).err().unwrap();
    assert_eq!(err.message(), "Tasks failed: b, c");
    assert_eq!(exit_status(&outcomes), 1);
    assert!(level_result(&vec![("a".to_string(), 0)]).is_ok());
    assert_eq!(exit_status(&vec![("a".to_string(), 0), ("b".to_string(), 7)]), 7);
    assert_eq!(exit_status(&vec![("a".to_string(), 0)]), 0);
}

#[test]
fn dispatcher_steps() {
    assert!(matches!(first_step(0), Step::Done));
    assert!(matches!(first_step(2), Step::RunLevel(0)));
    let ok = vec![("a".to_string(), 0)];
    assert!(matches!(after_level(0, 2, &ok), Step::RunLevel(1)));
    assert!(matches!(after_level(1, 2, &ok), Step::Done));
    let bad = vec![("a".to_string(), 3)];
    assert!(matches!(after_level(0, 2, &bad), Step::Failed(Error::TasksFailed { .. })));
    assert_eq!(unit_exit_code(None), -1);
    assert_eq!(unit_exit_code(Some(4)), 4);
}

#[test]
fn cache_decisions() {
    let mut t = task("x", &[]);
    assert!(matches!(unit_action(&t, true), UnitAction::Run));
    t.cache = Some(true);
    assert!(matches!(unit_action(&t, true), UnitAction::UseCached));
    assert!(matches!(unit_action(&t, false), UnitAction::Run));
    assert!(should_store(&t, 0));
    assert!(!should_store(&t, 1));
}

#[test]
fn arguments_only_for_requested() {
    let args = vec!["--fast".to_string()];
    let requested = vec!["deploy".to_string()];
    assert_eq!(task_args(&"deploy".to_string(), &requested, &args), args);
    assert!(task_args(&"build".to_string(), &requested, &args).is_empty());
}
