use cobble::cobble::build_units::{
    resolve_names_in_action, resolve_names_in_build_env, resolve_names_in_build_units, resolve_names_in_task,
    resolve_names_in_tool, Action, ActionCmd, BuildEnv, ExternalTool, Project, Task,
};
use cobble::cobble::datamodel::{Artifact, Dependency};
use cobble::cobble::resolve::NameResolutionError;

fn pair(a: &str, b: &str) -> (String, String) {
    (a.to_string(), b.to_string())
}

fn cmd_action(envs: Vec<(String, String)>) -> Action {
    Action {
        tools: vec![pair("cc", "gcc")],
        build_envs: envs,
        cmd: ActionCmd::Cmd(vec!["make".to_string(), "all".to_string()]),
    }
}

fn project(name: &str, path: &str) -> Project {
    Project {
        name: name.to_string(),
        path: path.to_string(),
        build_envs: Vec::new(),
        tasks: Vec::new(),
        tools: Vec::new(),
    }
}

#[test]
fn action_env_names_are_resolved_and_tools_kept() {
    let a = cmd_action(vec![pair("py", "venv"), pair("node", "/tools/node")]);
    let r = resolve_names_in_action("/proj", &a).unwrap();
    assert_eq!(r.tools, vec![pair("cc", "gcc")]);
    assert_eq!(r.build_envs, vec![pair("py", "/proj/venv"), pair("node", "/tools/node")]);
    match r.cmd {
        ActionCmd::Cmd(args) => assert_eq!(args, vec!["make".to_string(), "all".to_string()]),
        ActionCmd::Func(_) => panic!("command changed kind"),
    }
}

#[test]
fn action_function_body_is_kept() {
    let a = Action { tools: Vec::new(), build_envs: Vec::new(), cmd: ActionCmd::Func(vec![1, 2, 3]) };
    match resolve_names_in_action("/p", &a).unwrap().cmd {
        ActionCmd::Func(b) => assert_eq!(b, vec![1, 2, 3]),
        ActionCmd::Cmd(_) => panic!("command changed kind"),
    }
}

#[test]
fn action_in_a_relative_project_is_refused() {
    let a = cmd_action(vec![pair("py", "venv")]);
    match resolve_names_in_action("proj", &a) {
        Err(NameResolutionError::InvalidProjectName(p)) => assert_eq!(p, "proj"),
        other => panic!("unexpected result {:?}", other),
    }
}

#[test]
fn build_env_names_files_and_tasks_are_resolved() {
    let p = project("/a", "/ws/a");
    let env = BuildEnv {
        name: "venv".to_string(),
        install: vec![cmd_action(vec![pair("self", "venv")])],
        deps: vec![Dependency::File("req.txt".to_string()), Dependency::Task("../b/gen".to_string())],
        action: cmd_action(Vec::new()),
    };
    let r = resolve_names_in_build_env(&p, &env).unwrap();
    assert_eq!(r.name, "/a/venv");
    assert_eq!(r.install[0].build_envs, vec![pair("self", "/a/venv")]);
    match (&r.deps[0], &r.deps[1]) {
        (Dependency::File(f), Dependency::Task(t)) => {
            assert_eq!(f, "/ws/a/req.txt");
            assert_eq!(t, "/b/gen");
        },
        other => panic!("unexpected dependencies {:?}", other),
    }
}

#[test]
fn tool_name_stays_global() {
    let p = project("/a", "/ws/a");
    let tool = ExternalTool {
        name: "gcc".to_string(),
        install: Some(cmd_action(vec![pair("e", "env")])),
        check: None,
        action: cmd_action(Vec::new()),
    };
    let r = resolve_names_in_tool(&p, &tool).unwrap();
    assert_eq!(r.name, "gcc");
    assert_eq!(r.install.unwrap().build_envs, vec![pair("e", "/a/env")]);
    assert!(r.check.is_none());
}

#[test]
fn task_names_and_artifacts_are_resolved() {
    let p = project("/a", "/ws/a");
    let task = Task {
        name: "build".to_string(),
        build_env: Some(pair("env", "venv")),
        actions: vec![cmd_action(Vec::new())],
        deps: vec![Dependency::Task("/c/x".to_string())],
        artifacts: vec![Artifact { filename: "out/bin".to_string() }],
    };
    let r = resolve_names_in_task(&p, &task).unwrap();
    assert_eq!(r.name, "/a/build");
    assert_eq!(r.build_env, Some(pair("env", "/a/venv")));
    assert_eq!(r.artifacts[0].filename, "/ws/a/out/bin");
    match &r.deps[0] {
        Dependency::Task(t) => assert_eq!(t, "/c/x"),
        other => panic!("unexpected dependency {:?}", other),
    }
}

#[test]
fn build_units_are_collected_project_by_project() {
    let mut p1 = project("/", "/ws");
    p1.tasks.push(Task {
        name: "t1".to_string(),
        build_env: None,
        actions: Vec::new(),
        deps: Vec::new(),
        artifacts: Vec::new(),
    });
    p1.build_envs.push(BuildEnv {
        name: "e1".to_string(),
        install: Vec::new(),
        deps: Vec::new(),
        action: cmd_action(Vec::new()),
    });
    let mut p2 = project("/sub", "/ws/sub");
    p2.tasks.push(Task {
        name: "t2".to_string(),
        build_env: None,
        actions: Vec::new(),
        deps: Vec::new(),
        artifacts: Vec::new(),
    });
    p2.tools.push(ExternalTool { name: "gcc".to_string(), install: None, check: None, action: cmd_action(Vec::new()) });
    let c = resolve_names_in_build_units(&vec![p1, p2]).unwrap();
    let tasks: Vec<&str> = c.tasks.iter().map(|t| t.name.as_str()).collect();
    assert_eq!(tasks, vec!["/t1", "/sub/t2"]);
    assert_eq!(c.build_envs.len(), 1);
    assert_eq!(c.build_envs[0].name, "/e1");
    assert_eq!(c.tools.len(), 1);
    assert_eq!(c.tools[0].name, "gcc");
}

#[test]
fn build_units_error_names_the_first_bad_project() {
    let good = project("/ok", "/ws/ok");
    let mut bad = project("bad", "/ws/bad");
    bad.tasks.push(Task {
        name: "t".to_string(),
        build_env: None,
        actions: Vec::new(),
        deps: Vec::new(),
        artifacts: Vec::new(),
    });
    match resolve_names_in_build_units(&vec![good, bad]) {
        Err(NameResolutionError::InvalidProjectName(p)) => assert_eq!(p, "bad"),
        other => panic!("unexpected result {:?}", other.map(|c| c.tasks.len())),
    }
}

#[test]
fn build_units_of_no_projects_are_empty() {
    let c = resolve_names_in_build_units(&Vec::new()).unwrap();
    assert!(c.build_envs.is_empty() && c.tools.is_empty() && c.tasks.is_empty());
}
