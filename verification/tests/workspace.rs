use cobble::paths::{IoErrorKind, IoFailure};
use cobble::cobble::workspace::{
    ancestor_dirs, find_nearest_workspace_dir_from, parse_workspace_config, workspace_config_path, Workspace,
    WorkspaceConfig, WorkspaceConfigError,
};

#[test]
fn workspace_test_parse_workspace_config() {
    let config_toml = r#"
            root_projects = ["proj1", "proj2", "proj3"]
        "#;

    let config = parse_workspace_config(config_toml).unwrap();
    assert_eq!(config.root_projects, vec!["proj1", "proj2", "proj3"]);
}

#[test]
fn workspace_config_defaults_to_the_root_project() {
    let config = parse_workspace_config("").unwrap();
    assert_eq!(config.root_projects, vec!["."]);
}

#[test]
fn workspace_config_refuses_an_unknown_field() {
    match parse_workspace_config("other = 1") {
        Err(WorkspaceConfigError::ValueError(m)) => assert_eq!(m, "Unrecognized field 'other'"),
        other => panic!("unexpected result {:?}", other),
    }
}

#[test]
fn workspace_config_refuses_root_projects_that_are_not_strings() {
    match parse_workspace_config("root_projects = [1, 2]\nother = 1") {
        Err(WorkspaceConfigError::ValueError(m)) => assert!(m.starts_with("at 'root_projects': ")),
        other => panic!("unexpected result {:?}", other),
    }
}

#[test]
fn workspace_config_reports_a_parse_error() {
    match parse_workspace_config("root_projects = [") {
        Err(WorkspaceConfigError::ParseError(m)) => assert!(m.starts_with("Error parsing config: ")),
        other => panic!("unexpected result {:?}", other),
    }
}

#[test]
fn workspace_config_error_messages() {
    assert_eq!(WorkspaceConfigError::Unknown.message(), "Unknown Error");
    assert_eq!(WorkspaceConfigError::ValueError(String::from("x")).message(), "Error reading config values: x");
}

#[test]
fn workspace_new_keeps_its_directory() {
    let ws = Workspace::new("test", WorkspaceConfig { root_projects: vec![String::from(".")] });
    assert_eq!(ws.workspace_dir, "test");
    assert_eq!(ws.config.root_projects, vec!["."]);
}

#[test]
fn ancestors_run_from_the_path_to_the_root() {
    assert_eq!(ancestor_dirs("/a/b/c"), vec!["/a/b/c", "/a/b", "/a", "/"]);
}

#[test]
fn workspace_config_file_lies_in_the_directory() {
    assert_eq!(workspace_config_path("/a/b"), "/a/b/cobble.toml");
}

#[test]
fn nearest_workspace_dir_is_the_first_with_a_config_file() {
    let r = find_nearest_workspace_dir_from("b/c", "/a/b/c", &vec![false, false, true, true]);
    assert_eq!(r, Ok("/a".to_string()));
}

#[test]
fn missing_workspace_dir_names_the_given_path() {
    let r = find_nearest_workspace_dir_from("b/c", "/a/b/c", &vec![false, false, false, false]);
    assert_eq!(
        r,
        Err(IoFailure {
            kind: IoErrorKind::NotFound,
            message: "Did not find 'cobble.toml' file in any ancestor directory from b/c".to_string(),
        })
    );
}
