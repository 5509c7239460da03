use cobble::execute::execute::{GraphError, JobScheduler};
use cobble::execute::jobs::{
    add_clean_jobs, add_env_action_jobs, add_task_jobs, add_tool_check_jobs, compute_dependency_edges,
    get_clean_job_task_dependencies, get_task_job_dependencies, job_index_graph, missing_dependency_name, start_job_graph,
    BuildEnv,
    ExecutorJob, ExternalTool, JobGraphError, Task, TaskType, Workspace,
};

fn s(x: &str) -> String {
    String::from(x)
}

fn task(deps: &[&str], envs: &[&str], task_type: TaskType) -> Task {
    Task {
        task_deps: deps.iter().map(|d| s(d)).collect(),
        file_deps: vec![],
        build_envs: envs.iter().map(|e| s(e)).collect(),
        calc_deps: vec![],
        clean_actions: vec![],
        execute_after: vec![],
        task_type,
    }
}

fn workspace() -> Workspace {
    let mut calc = task(&[], &[], TaskType::Task);
    calc.calc_deps = vec![s("later")];
    let mut with_file = task(&[], &[], TaskType::Task);
    with_file.file_deps = vec![Some(s("/b")), None];
    with_file.execute_after = vec![s("/a"), s("/absent")];
    Workspace {
        tasks: vec![
            (s("/a"), task(&["/b"], &["/env"], TaskType::Task)),
            (s("/b"), task(&[], &[], TaskType::Task)),
            (s("/q"), task(&["/b"], &[], TaskType::Project)),
            (s("/c"), calc),
            (s("/t"), task(&[], &["e"], TaskType::Task)),
            (s("e"), task(&[], &[], TaskType::Task)),
            (s("/f"), with_file),
            (s("/bad"), task(&[], &["/nowhere"], TaskType::Task)),
        ],
        build_envs: vec![(s("/env"), BuildEnv { setup_task: Some(s("/b")) })],
        tools: vec![
            (s("python"), ExternalTool { action_tools: vec![], check_tools: Some(vec![s("sh")]) }),
            (s("sh"), ExternalTool { action_tools: vec![], check_tools: None }),
        ],
    }
}

fn keys(jobs: &[(String, ExecutorJob)]) -> Vec<&str> {
    let mut k: Vec<&str> = jobs.iter().map(|(id, _)| id.as_str()).collect();
    k.sort();
    k
}

#[test]
fn task_dependencies() {
    let ws = workspace();
    let mut deps = get_task_job_dependencies(&ws.tasks[0].1, &ws).unwrap();
    deps.sort();
    assert_eq!(deps, vec!["/b"]);
    let deps = get_task_job_dependencies(&ws.tasks[6].1, &ws).unwrap();
    assert_eq!(deps, vec!["/b"]);
    match get_task_job_dependencies(&ws.tasks[7].1, &ws) {
        Err(JobGraphError::EnvLookupError(e)) => assert_eq!(e, "/nowhere"),
        other => panic!("unexpected result {:?}", other),
    }
}

#[test]
fn task_jobs_take_their_dependencies() {
    let ws = workspace();
    let mut jobs = vec![];
    add_task_jobs("/a", &ws, &mut jobs).unwrap();
    assert_eq!(keys(&jobs), vec!["/a", "/b"]);
    add_task_jobs("/a", &ws, &mut jobs).unwrap();
    assert_eq!(jobs.len(), 2);
    assert!(matches!(add_task_jobs("/zzz", &ws, &mut jobs), Err(JobGraphError::TaskLookupError(n)) if n == "/zzz"));
    assert!(matches!(
        add_task_jobs("/c", &ws, &mut jobs),
        Err(JobGraphError::UnresolvedCalcDependencyError(n)) if n == "/c"
    ));
}

#[test]
fn tool_check_jobs_take_the_tools_they_use() {
    let ws = workspace();
    let mut jobs = vec![];
    add_tool_check_jobs("python", &ws, &mut jobs).unwrap();
    assert_eq!(keys(&jobs), vec!["tool_check:python", "tool_check:sh"]);
    assert!(matches!(add_tool_check_jobs("ruby", &ws, &mut jobs), Err(JobGraphError::ToolLookupError(n)) if n == "ruby"));
}

#[test]
fn env_action_jobs_take_the_setup_task() {
    let ws = workspace();
    let mut jobs = vec![];
    add_env_action_jobs("/env", &vec![s("arg")], &ws, &mut jobs).unwrap();
    assert_eq!(keys(&jobs), vec!["/b", "env_action:/env"]);
    assert!(matches!(
        add_env_action_jobs("/none", &vec![], &ws, &mut jobs),
        Err(JobGraphError::EnvLookupError(n)) if n == "/none"
    ));
}

#[test]
fn clean_jobs() {
    let ws = workspace();
    let mut jobs = vec![];
    add_clean_jobs("/q", &ws, &mut jobs).unwrap();
    assert_eq!(keys(&jobs), vec!["clean:/b", "clean:/q"]);
    let mut deps = get_clean_job_task_dependencies(&ws.tasks[0].1);
    deps.sort();
    assert_eq!(deps, vec!["/env"]);
    // The build environments of a task to clean are added as task jobs.
    let mut jobs = vec![];
    assert!(matches!(add_clean_jobs("/a", &ws, &mut jobs), Err(JobGraphError::TaskLookupError(n)) if n == "/env"));
}

#[test]
fn dependency_edges() {
    let ws = workspace();
    let mut jobs = vec![];
    add_task_jobs("/a", &ws, &mut jobs).unwrap();
    add_task_jobs("/f", &ws, &mut jobs).unwrap();
    let edges = compute_dependency_edges(&jobs, &ws).unwrap();
    for (i, (id, _)) in jobs.iter().enumerate() {
        let mut e: Vec<&str> = edges[i].iter().map(|x| x.as_str()).collect();
        e.sort();
        match id.as_str() {
            "/a" => assert_eq!(e, vec!["/b"]),
            "/b" => assert!(e.is_empty()),
            "/f" => assert_eq!(e, vec!["/a", "/b"]),
            other => panic!("unexpected job {}", other),
        }
    }
    let graph = job_index_graph(&jobs, &edges);
    let (mut sched, first) = JobScheduler::new(graph).ok().unwrap();
    let b = jobs.iter().position(|(id, _)| id == "/b").unwrap();
    assert_eq!(first, vec![b]);
    let next = sched.job_completed(b);
    let a = jobs.iter().position(|(id, _)| id == "/a").unwrap();
    assert_eq!(next, vec![a]);
}

#[test]
fn clean_jobs_wait_for_clean_jobs_that_use_what_they_clean() {
    let ws = workspace();
    let mut jobs = vec![];
    add_clean_jobs("/t", &ws, &mut jobs).unwrap();
    add_clean_jobs("e", &ws, &mut jobs).unwrap();
    assert_eq!(keys(&jobs), vec!["clean:/t", "clean:e", "e"]);
    let edges = compute_dependency_edges(&jobs, &ws).unwrap();
    for (i, (id, _)) in jobs.iter().enumerate() {
        let mut e: Vec<&str> = edges[i].iter().map(|x| x.as_str()).collect();
        e.sort();
        e.dedup();
        match id.as_str() {
            "clean:/t" => assert_eq!(e, vec!["e"]),
            "clean:e" => assert_eq!(e, vec!["clean:/t", "e"]),
            "e" => assert!(e.is_empty()),
            other => panic!("unexpected job {}", other),
        }
    }
}

#[test]
fn missing_dependencies_are_named() {
    let ws = workspace();
    let mut jobs = vec![];
    add_task_jobs("/b", &ws, &mut jobs).unwrap();
    let edges = vec![vec![s("/gone")]];
    assert_eq!(missing_dependency_name(&jobs, &edges, 0), Some(s("/gone")));
    let graph = job_index_graph(&jobs, &edges);
    assert_eq!(graph, vec![vec![1]]);
    assert!(matches!(JobScheduler::new(graph), Err(GraphError::MissingDependency(0, 1))));
    let self_edges = vec![vec![s("/b")]];
    assert_eq!(missing_dependency_name(&jobs, &self_edges, 0), None);
    assert!(matches!(JobScheduler::new(job_index_graph(&jobs, &self_edges)), Err(GraphError::Cycle(0))));
}

#[test]
fn job_graph_starts_with_the_jobs_without_dependencies() {
    let ws = workspace();
    let mut jobs = vec![];
    add_task_jobs("/a", &ws, &mut jobs).unwrap();
    let (mut scheduler, first) = start_job_graph(&jobs, &ws).unwrap();
    let b = jobs.iter().position(|(id, _)| id == "/b").unwrap();
    let a = jobs.iter().position(|(id, _)| id == "/a").unwrap();
    assert_eq!(first, vec![b]);
    assert_eq!(scheduler.job_completed(b), vec![a]);
}

#[test]
fn job_graph_names_a_missing_dependency() {
    let ws = workspace();
    let jobs = vec![(s("/f"), ExecutorJob::Task { task_name: s("/f") })];
    assert_eq!(start_job_graph(&jobs, &ws).err(), Some(s("/f dependency /b was not found")));
}

#[test]
fn job_graph_errors_read_as_messages() {
    assert_eq!(JobGraphError::TaskLookupError(s("/x")).message(), "Task not found while creating jobs: /x");
    assert_eq!(JobGraphError::EnvLookupError(s("/e")).message(), "Build env not found while creating jbos: /e");
    assert_eq!(
        JobGraphError::UnresolvedCalcDependencyError(s("/c")).message(),
        "Encountered a task with unresolved calc dependencies: /c"
    );
}

#[test]
fn job_graph_names_a_job_on_a_cycle() {
    let ws = Workspace {
        tasks: vec![
            (s("/x"), task(&["/y"], &[], TaskType::Task)),
            (s("/y"), task(&["/x"], &[], TaskType::Task)),
            (s("/z"), task(&[], &[], TaskType::Task)),
        ],
        build_envs: vec![],
        tools: vec![],
    };
    let jobs = vec![
        (s("/z"), ExecutorJob::Task { task_name: s("/z") }),
        (s("/x"), ExecutorJob::Task { task_name: s("/x") }),
        (s("/y"), ExecutorJob::Task { task_name: s("/y") }),
    ];
    let err = start_job_graph(&jobs, &ws).err().unwrap();
    assert!(
        err == "Encountered cycle in dependency graph at /x" || err == "Encountered cycle in dependency graph at /y",
        "unexpected error {}",
        err
    );
}

#[test]
fn job_graph_refuses_a_task_without_its_environment() {
    let ws = workspace();
    let jobs = vec![(s("/bad"), ExecutorJob::Task { task_name: s("/bad") })];
    assert_eq!(start_job_graph(&jobs, &ws).err(), Some(s("Build env not found while creating jbos: /nowhere")));
}
