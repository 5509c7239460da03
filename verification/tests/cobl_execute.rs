use cobble::cobl::execute::{
    add_jobs_for_task, compute_task_job_forward_edges, create_jobs_for_tasks, get_task_job_dependencies, CoblScheduler,
};
use cobble::execute::jobs::{JobGraphError, Task, TaskType, Workspace};

fn s(x: &str) -> String {
    String::from(x)
}

fn task(deps: &[&str], after: &[&str]) -> Task {
    Task {
        task_deps: deps.iter().map(|d| s(d)).collect(),
        file_deps: vec![],
        build_envs: vec![],
        calc_deps: vec![],
        clean_actions: vec![],
        execute_after: after.iter().map(|d| s(d)).collect(),
        task_type: TaskType::Task,
    }
}

fn workspace() -> Workspace {
    let mut with_files = task(&["/c"], &[]);
    with_files.file_deps = vec![Some(s("/b")), None, Some(s("/a"))];
    let mut calc = task(&[], &[]);
    calc.calc_deps = vec![s("/b")];
    Workspace {
        tasks: vec![
            (s("/a"), task(&["/b"], &[])),
            (s("/b"), task(&[], &[])),
            (s("/c"), task(&["/b"], &["/a"])),
            (s("/d"), with_files),
            (s("/calc"), calc),
            (s("/lost"), task(&["/nowhere"], &[])),
        ],
        build_envs: vec![],
        tools: vec![],
    }
}

fn sorted(mut v: Vec<String>) -> Vec<String> {
    v.sort();
    v
}

#[test]
fn job_dependencies_are_task_deps_then_file_providers() {
    let ws = workspace();
    assert_eq!(get_task_job_dependencies(&ws.tasks[0].1), vec![s("/b")]);
    assert_eq!(get_task_job_dependencies(&ws.tasks[1].1), Vec::<String>::new());
    assert_eq!(get_task_job_dependencies(&ws.tasks[3].1), vec![s("/c"), s("/b"), s("/a")]);
}

#[test]
fn jobs_for_tasks_take_in_what_they_wait_for() {
    let ws = workspace();
    let jobs = create_jobs_for_tasks(&ws, &vec![s("/d")]).unwrap();
    assert_eq!(sorted(jobs), vec![s("/a"), s("/b"), s("/c"), s("/d")]);
    let jobs = create_jobs_for_tasks(&ws, &vec![s("/b"), s("/b")]).unwrap();
    assert_eq!(jobs, vec![s("/b")]);
}

#[test]
fn jobs_for_unknown_or_uncalculated_tasks_fail() {
    let ws = workspace();
    match create_jobs_for_tasks(&ws, &vec![s("/zzz")]) {
        Err(JobGraphError::TaskLookupError(n)) => assert_eq!(n, "/zzz"),
        other => panic!("unexpected result {:?}", other),
    }
    match create_jobs_for_tasks(&ws, &vec![s("/lost")]) {
        Err(JobGraphError::TaskLookupError(n)) => assert_eq!(n, "/nowhere"),
        other => panic!("unexpected result {:?}", other),
    }
    match create_jobs_for_tasks(&ws, &vec![s("/calc")]) {
        Err(JobGraphError::UnresolvedCalcDependencyError(n)) => assert_eq!(n, "/calc"),
        other => panic!("unexpected result {:?}", other),
    }
}

#[test]
fn adding_a_present_job_changes_nothing() {
    let ws = workspace();
    let mut jobs = vec![s("/a")];
    assert!(add_jobs_for_task("/a", &ws, &mut jobs).is_ok());
    assert_eq!(jobs, vec![s("/a")]);
    assert!(add_jobs_for_task("/c", &ws, &mut jobs).is_ok());
    assert_eq!(sorted(jobs), vec![s("/a"), s("/b"), s("/c")]);
}

#[test]
fn forward_edges_lead_to_waiting_tasks() {
    let ws = workspace();
    let edges = compute_task_job_forward_edges(&ws);
    let of = |x: &str| -> Vec<String> {
        let found: Vec<&(String, Vec<String>)> = edges.iter().filter(|(d, _)| d == x).collect();
        assert!(found.len() <= 1);
        found.first().map(|(_, t)| sorted(t.clone())).unwrap_or_default()
    };
    assert_eq!(of("/b"), vec![s("/a"), s("/c"), s("/d")]);
    assert_eq!(of("/a"), vec![s("/c"), s("/d")]);
    assert_eq!(of("/c"), vec![s("/d")]);
    assert_eq!(of("/nowhere"), vec![s("/lost")]);
    assert_eq!(of("/d"), Vec::<String>::new());
}

#[test]
fn scheduler_starts_jobs_as_their_dependencies_complete() {
    let ws = workspace();
    let edges = compute_task_job_forward_edges(&ws);
    let jobs = vec![s("/a"), s("/b"), s("/c")];
    let (mut sched, first) = CoblScheduler::start(&jobs, &ws);
    assert_eq!(first, vec![s("/b")]);
    assert_eq!(sched.completed_count(), 0);
    let next = sched.job_completed("/b", &ws, &edges);
    // "/c" runs after "/a", which has just started.
    assert_eq!(next, vec![s("/a")]);
    assert_eq!(sched.completed_count(), 1);
    let next = sched.job_completed("/a", &ws, &edges);
    assert_eq!(next, vec![s("/c")]);
    let next = sched.job_completed("/c", &ws, &edges);
    assert!(next.is_empty());
    assert_eq!(sched.completed_count(), 3);
}

#[test]
fn scheduler_counts_a_job_completed_twice_once() {
    let ws = workspace();
    let edges = compute_task_job_forward_edges(&ws);
    let jobs = vec![s("/b")];
    let (mut sched, first) = CoblScheduler::start(&jobs, &ws);
    assert_eq!(first, vec![s("/b")]);
    sched.job_completed("/b", &ws, &edges);
    sched.job_completed("/b", &ws, &edges);
    assert_eq!(sched.completed_count(), 1);
}

#[test]
fn scheduler_waits_for_file_providers_and_ordering() {
    let mut p = task(&[], &[]);
    p.file_deps = vec![Some(s("/b"))];
    let ws = Workspace {
        tasks: vec![
            (s("/b"), task(&[], &[])),
            (s("/p"), p),
            (s("/q"), task(&[], &["/b"])),
            (s("/r"), task(&[], &[])),
        ],
        build_envs: vec![],
        tools: vec![],
    };
    let edges = compute_task_job_forward_edges(&ws);
    let jobs = vec![s("/p"), s("/q"), s("/b"), s("/r")];
    let (mut sched, first) = CoblScheduler::start(&jobs, &ws);
    assert_eq!(first, vec![s("/b"), s("/r")]);
    let next = sched.job_completed("/r", &ws, &edges);
    assert!(next.is_empty());
    let next = sched.job_completed("/b", &ws, &edges);
    assert_eq!(sorted(next), vec![s("/p"), s("/q")]);
}
