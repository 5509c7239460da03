use cobble::config::find_nearest_workspace_config_file_from;
use cobble::paths::{IoErrorKind, IoFailure};
use cobble::config::{
    add_cli_vars_to_workspace_config, find_nearest_project_dir, get_workspace_config, output_condition_from_lowercase,
    parse_output_condition, parse_workspace_config, project_dir_candidates, TaskOutputCondition, WorkspaceConfigArgs,
    WorkspaceConfigError, DEFAULT_NUM_THREADS,
};
use cobble::toml_value::TomlValue;

#[test]
fn config_test_parse_workspace_config() {
    let config_toml = r#"
            root_projects = ["proj1", "proj2", "proj3"]
        "#;

    let config = parse_workspace_config(config_toml, "/home/test/proj/cobble.toml").unwrap();
    assert_eq!(config.workspace_dir, "/home/test/proj");
    assert_eq!(config.root_projects, vec!["proj1", "proj2", "proj3"]);
}

#[test]
fn config_defaults() {
    let config = parse_workspace_config("", "/ws/cobble.toml").unwrap();
    assert_eq!(config.root_projects, vec!["."]);
    assert_eq!(config.num_threads, DEFAULT_NUM_THREADS);
    assert_eq!(config.num_threads, 5);
    assert_eq!(config.show_stdout, TaskOutputCondition::OnFail);
    assert_eq!(config.show_stderr, TaskOutputCondition::OnFail);
    assert!(!config.force_run_tasks);
    assert!(config.vars.is_empty());
}

#[test]
fn config_output_sets_both_streams_unless_they_are_given() {
    let config = parse_workspace_config("output = \"ALWAYS\"\nstderr = \"never\"", "/ws/cobble.toml").unwrap();
    assert_eq!(config.show_stdout, TaskOutputCondition::Always);
    assert_eq!(config.show_stderr, TaskOutputCondition::Never);
}

#[test]
fn config_num_threads() {
    let config = parse_workspace_config("num_threads = 12", "/ws/cobble.toml").unwrap();
    assert_eq!(config.num_threads, 12);
    match parse_workspace_config("num_threads = 300", "/ws/cobble.toml") {
        Err(WorkspaceConfigError::ValueError(m)) => assert!(m.starts_with("at 'num_threads': ")),
        other => panic!("unexpected result {:?}", other),
    }
}

#[test]
fn config_refuses_an_invalid_output_condition() {
    match parse_workspace_config("output = \"Sometimes\"", "/ws/cobble.toml") {
        Err(WorkspaceConfigError::ValueError(m)) => assert_eq!(
            m,
            "at 'output': Invalid value given for output condition: sometimes.  Expected one of [always, never, on_fail]."
        ),
        other => panic!("unexpected result {:?}", other),
    }
}

#[test]
fn config_vars() {
    let config = parse_workspace_config("[vars]\nb = \"x\"\na = 1", "/ws/cobble.toml").unwrap();
    assert_eq!(config.vars.len(), 2);
    assert_eq!(config.vars[0].0, "a");
    assert!(matches!(config.vars[0].1, TomlValue::Integer(1)));
    assert_eq!(config.vars[1].0, "b");
    assert!(matches!(&config.vars[1].1, TomlValue::String(s) if s == "x"));
    match parse_workspace_config("vars = 1", "/ws/cobble.toml") {
        Err(WorkspaceConfigError::ValueError(m)) => assert_eq!(m, "vars config variable must be a table"),
        other => panic!("unexpected result {:?}", other),
    }
}

#[test]
fn config_refuses_an_unknown_field_after_the_settings() {
    match parse_workspace_config("zzz = 1\nnum_threads = \"x\"", "/ws/cobble.toml") {
        Err(WorkspaceConfigError::ValueError(m)) => assert!(m.starts_with("at 'num_threads': ")),
        other => panic!("unexpected result {:?}", other),
    }
    match parse_workspace_config("zzz = 1\naaa = 2", "/ws/cobble.toml") {
        Err(WorkspaceConfigError::ValueError(m)) => assert_eq!(m, "Unrecognized field 'aaa'"),
        other => panic!("unexpected result {:?}", other),
    }
}

#[test]
fn config_reports_a_parse_error() {
    match parse_workspace_config("=", "/ws/cobble.toml") {
        Err(WorkspaceConfigError::ParseError(m)) => assert!(m.starts_with("Error parsing config: ")),
        other => panic!("unexpected result {:?}", other),
    }
}

#[test]
fn config_workspace_dir_of_a_bare_file_name() {
    let config = parse_workspace_config("", "cobble.toml").unwrap();
    assert_eq!(config.workspace_dir, "");
    let config = parse_workspace_config("", "/").unwrap();
    assert_eq!(config.workspace_dir, ".");
}

#[test]
fn output_conditions() {
    assert_eq!(parse_output_condition("always").unwrap(), TaskOutputCondition::Always);
    assert_eq!(parse_output_condition("Never").unwrap(), TaskOutputCondition::Never);
    assert_eq!(parse_output_condition("ON_FAIL").unwrap(), TaskOutputCondition::OnFail);
    assert_eq!(
        parse_output_condition("Bad").unwrap_err(),
        "Invalid value given for output condition: bad.  Expected one of [always, never, on_fail]."
    );
    assert!(output_condition_from_lowercase("Always").is_err());
}

#[test]
fn config_args_override_the_file() {
    let mut args = WorkspaceConfigArgs::default();
    args.num_threads = Some(2);
    args.force_run_tasks = Some(true);
    args.show_stdout = Some(TaskOutputCondition::Never);
    args.vars = vec![String::from("name=a=b"), String::from("other=")];
    let config = get_workspace_config("num_threads = 9\n[vars]\nname = 1", "/ws/cobble.toml", &args).unwrap();
    assert_eq!(config.num_threads, 2);
    assert!(config.force_run_tasks);
    assert_eq!(config.show_stdout, TaskOutputCondition::Never);
    assert_eq!(config.show_stderr, TaskOutputCondition::OnFail);
    assert_eq!(config.vars.len(), 2);
    assert_eq!(config.vars[0].0, "name");
    assert!(matches!(&config.vars[0].1, TomlValue::String(s) if s == "a=b"));
    assert_eq!(config.vars[1].0, "other");
    assert!(matches!(&config.vars[1].1, TomlValue::String(s) if s.is_empty()));
}

#[test]
fn config_refuses_a_variable_argument_without_value() {
    let mut config = parse_workspace_config("", "/ws/cobble.toml").unwrap();
    let res = add_cli_vars_to_workspace_config(&vec![String::from("a=1"), String::from("novalue")], &mut config);
    match res {
        Err(WorkspaceConfigError::ValueError(m)) => assert_eq!(
            m,
            "Unable to parse variable argument 'novalue'.  Specify variable arguments in the form '--var <the.var.name>=<value>'."
        ),
        other => panic!("unexpected result {:?}", other),
    }
    assert_eq!(config.vars.len(), 1);
}

#[test]
fn config_error_messages() {
    assert_eq!(WorkspaceConfigError::ParseError(String::from("x")).message(), "Error parsing config file: x");
    assert_eq!(
        WorkspaceConfigError::FileError {
            path: String::from("p"),
            error: IoFailure { kind: IoErrorKind::NotFound, message: String::from("e") },
        }
        .message(),
        "Error reading file at p: e"
    );
}

#[test]
fn project_dir_search() {
    let candidates = project_dir_candidates("/ws/a/b", "/ws");
    let rel: Vec<&str> = candidates.iter().map(|(_, r)| r.as_str()).collect();
    let dirs: Vec<&str> = candidates.iter().map(|(d, _)| d.as_str()).collect();
    assert_eq!(dirs, vec!["/ws/a/b", "/ws/a", "/ws"]);
    assert_eq!(rel, vec!["./a/b", "./a", "."]);
    assert_eq!(find_nearest_project_dir("/ws/a/b", "/ws", &vec![false, true, true]), "./a");
    assert_eq!(find_nearest_project_dir("/ws/a/b", "/ws", &vec![false, false, false]), ".");
    assert_eq!(find_nearest_project_dir("/other", "/ws", &vec![true]), ".");
}

#[test]
fn nearest_workspace_config_file_is_in_the_first_flagged_ancestor() {
    let r = find_nearest_workspace_config_file_from("x", "/a/b", &vec![false, true, true]);
    assert_eq!(r, Ok("/a/cobble.toml".to_string()));
    let none = find_nearest_workspace_config_file_from("x", "/a/b", &vec![false, false, false]);
    assert_eq!(
        none,
        Err(IoFailure {
            kind: IoErrorKind::NotFound,
            message: "Did not find 'cobble.toml' file in any ancestor directory from x".to_string(),
        })
    );
}
