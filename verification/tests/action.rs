use cobble::config::TaskOutputCondition;
use cobble::datamodel::action::{Action, ActionCmd};
use cobble::execute::action::{
    action_context, job_output_conditions, next_action_step, ActionContextError, ActionStep,
};

fn s(x: &str) -> String {
    String::from(x)
}

fn p(a: &str, b: &str) -> (String, String) {
    (s(a), s(b))
}

#[test]
fn actions_run_in_turn_each_with_the_previous_result() {
    assert_eq!(next_action_step::<i32>(2, 0, None), ActionStep::Run { index: 0, args: None });
    assert_eq!(next_action_step(2, 1, Some(Ok(7))), ActionStep::Run { index: 1, args: Some(7) });
    assert_eq!(next_action_step(2, 2, Some(Ok(9))), ActionStep::Done(Some(9)));
    assert_eq!(next_action_step::<i32>(0, 0, None), ActionStep::Done(None));
}

#[test]
fn a_failed_action_stops_the_run() {
    assert_eq!(next_action_step::<i32>(3, 1, Some(Err(s("boom")))), ActionStep::Failed(s("boom")));
}

#[test]
fn a_job_shows_output_by_its_own_setting_or_the_workspace() {
    let r = job_output_conditions(
        Some(TaskOutputCondition::Never),
        None,
        TaskOutputCondition::Always,
        TaskOutputCondition::OnFail,
    );
    assert_eq!(r, (TaskOutputCondition::Never, TaskOutputCondition::OnFail));
}

fn action() -> Action {
    Action {
        tools: vec![p("py", "python3.12"), p("sh", "bash")],
        build_envs: vec![p("venv", "/proj/venv")],
        cmd: ActionCmd::Cmd(vec![s("echo")]),
    }
}

#[test]
fn action_context_sets_the_actions_tools_over_the_tasks() {
    let c = action_context(
        "/proj/build",
        &vec![p("py", "python3.11"), p("node", "node")],
        &vec![],
        action(),
        &vec![p("in", "proj/in.txt")],
        &vec![p("proj/in.txt", "h1")],
        &vec![p("gen", "/proj/gen")],
        &vec![p("/proj/gen", "42")],
        &vec![s("version")],
        &vec![p("version", "\"1.0\"")],
        "proj",
        7i64,
    )
    .unwrap();
    assert_eq!(c.task_name, "/proj/build");
    assert_eq!(c.args, 7);
    assert!(matches!(&c.action.cmd, ActionCmd::Cmd(v) if v == &vec![s("echo")]));
    assert_eq!(c.tools, vec![p("py", "python3.12"), p("node", "node"), p("sh", "bash")]);
    assert_eq!(c.envs, vec![p("venv", "/proj/venv")]);
    assert_eq!(c.file_hashes, vec![p("in", "h1")]);
    assert_eq!(c.file_paths, vec![p("in", "proj/in.txt")]);
    assert_eq!(c.tasks, vec![p("gen", "42")]);
    assert_eq!(c.vars, vec![p("version", "\"1.0\"")]);
    assert_eq!(c.project_dir, "proj");
}

#[test]
fn action_context_reports_what_is_missing() {
    let r = action_context(
        "/t",
        &vec![],
        &vec![],
        action(),
        &vec![p("in", "proj/in.txt")],
        &vec![],
        &vec![],
        &vec![],
        &vec![],
        &vec![],
        "proj",
        (),
    );
    match r {
        Err(ActionContextError::FileHashMissing(a, path)) => {
            assert_eq!(a, "in");
            assert_eq!(path, "proj/in.txt");
        }
        other => panic!("unexpected result {:?}", other),
    }
    let r = action_context("/t", &vec![], &vec![], action(), &vec![], &vec![], &vec![p("gen", "/g")], &vec![], &vec![], &vec![], "", ());
    assert!(matches!(r, Err(ActionContextError::TaskOutputMissing(t)) if t == "/g"));
    let r = action_context("/t", &vec![], &vec![], action(), &vec![], &vec![], &vec![], &vec![], &vec![s("v")], &vec![], "", ());
    assert!(matches!(r, Err(ActionContextError::VarLookupError(v)) if v == "v"));
}
