use cobble::execute::execute::{
    compute_reverse_dependency_edges, get_clean_task_name, get_env_action_job_id, get_tool_check_job_id, has_cycle,
    has_missing_dependencies, GraphError, JobScheduler,
};

#[test]
fn job_ids() {
    assert_eq!(get_tool_check_job_id("python"), "tool_check:python");
    assert_eq!(get_env_action_job_id("/env"), "env_action:/env");
    assert_eq!(get_clean_task_name("/build"), "clean:/build");
    assert_ne!(get_clean_task_name("a"), get_clean_task_name("b"));
}

#[test]
fn cycles_are_found() {
    let cyclic = vec![vec![1], vec![2], vec![0]];
    let node = has_cycle(&cyclic).expect("a cycle");
    assert!(node < 3);
    assert_eq!(has_cycle(&vec![vec![0]]), Some(0));
    assert_eq!(has_cycle(&vec![vec![], vec![0], vec![0, 1]]), None);
    assert_eq!(has_cycle(&vec![]), None);
}

#[test]
fn reverse_edges() {
    let rev = compute_reverse_dependency_edges(&vec![vec![], vec![0], vec![0, 1]], 3);
    assert_eq!(rev.len(), 3);
    let mut r0 = rev[0].clone();
    r0.sort();
    assert_eq!(r0, vec![1, 2]);
    assert_eq!(rev[1], vec![2]);
    assert!(rev[2].is_empty());
}

#[test]
fn missing_dependencies() {
    assert_eq!(has_missing_dependencies(2, &vec![vec![5], vec![]]), Some((0, 5)));
    assert_eq!(has_missing_dependencies(2, &vec![vec![1], vec![]]), None);
}

#[test]
fn scheduler_runs_jobs_in_dependency_order() {
    let (mut s, first) = JobScheduler::new(vec![vec![], vec![0], vec![0, 1], vec![]]).ok().unwrap();
    let mut first = first;
    first.sort();
    assert_eq!(first, vec![0, 3]);
    assert!(!s.is_complete());
    assert_eq!(s.job_completed(0), vec![1]);
    assert!(s.job_completed(3).is_empty());
    assert_eq!(s.job_completed(1), vec![2]);
    assert!(!s.is_complete());
    assert!(s.job_completed(2).is_empty());
    assert!(s.is_complete());
}

#[test]
fn scheduler_refuses_bad_graphs() {
    assert!(matches!(JobScheduler::new(vec![vec![1], vec![0]]), Err(GraphError::Cycle(_))));
    assert!(matches!(JobScheduler::new(vec![vec![7]]), Err(GraphError::MissingDependency(0, 7))));
}

#[test]
fn reverse_edges_keep_each_repeated_dependency() {
    let rev = compute_reverse_dependency_edges(&vec![vec![1, 1, 2], vec![2], vec![]], 3);
    assert_eq!(rev, vec![vec![], vec![0, 0], vec![0, 1]]);
}
