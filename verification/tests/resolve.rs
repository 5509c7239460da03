use cobble::cobble::datamodel::{Artifact, Dependency};
use cobble::cobble::resolve::{
    resolve_name, resolve_names_in_artifact, resolve_names_in_dependency, resolve_path, NameResolutionError,
};

#[test]
fn test_resolve_name() {
    let full_name = resolve_name("/subproject", "myname").unwrap();
    assert_eq!(full_name, "/subproject/myname");
}

#[test]
fn test_resolve_name_from_root() {
    let full_name = resolve_name("/", "myname").unwrap();
    assert_eq!(full_name, "/myname");
}

#[test]
fn resolve_keeps_absolute_names() {
    assert_eq!(resolve_name("/a/b", "/x/y").unwrap(), "/x/y");
}

#[test]
fn resolve_applies_parent_and_current_segments() {
    assert_eq!(resolve_name("/a/b", "../c").unwrap(), "/a/c");
    assert_eq!(resolve_name("/a", "./b/./c").unwrap(), "/a/b/c");
    assert_eq!(resolve_name("/a//b/", "c//d").unwrap(), "/a/b/c/d");
}

#[test]
fn resolve_parent_does_not_go_past_the_root() {
    assert_eq!(resolve_name("/", "../x").unwrap(), "/x");
}

#[test]
fn resolve_each_parent_goes_up_one_level() {
    assert_eq!(resolve_name("/a/b", "../../c").unwrap(), "/c");
    assert_eq!(resolve_name("/a/b/c", "../../x").unwrap(), "/a/x");
    assert_eq!(resolve_name("/a", "../../../x/./y").unwrap(), "/x/y");
    assert_eq!(resolve_name("/a/b", "c/../d").unwrap(), "/a/b/d");
}

#[test]
fn resolve_refuses_a_relative_project_name() {
    match resolve_name("proj", "x") {
        Err(NameResolutionError::InvalidProjectName(p)) => assert_eq!(p, "proj"),
        other => panic!("unexpected result {:?}", other),
    }
}

#[test]
fn resolve_declared_name_is_under_its_project() {
    let full = resolve_name("/p", "t").unwrap();
    assert!(full.starts_with("/p/"));
}

#[test]
fn resolve_is_idempotent() {
    let once = resolve_name("/p/q", "../r/s").unwrap();
    let twice = resolve_name("/elsewhere", &once).unwrap();
    assert_eq!(once, twice);
}

#[test]
fn resolve_path_joins_to_the_project_dir() {
    assert_eq!(resolve_path("proj", "file.txt").unwrap(), "proj/file.txt");
    assert_eq!(resolve_path("proj", "/abs/file.txt").unwrap(), "/abs/file.txt");
}

#[test]
fn resolve_dependency_names() {
    match resolve_names_in_dependency("/p", "dir", &Dependency::File(String::from("f.txt"))).unwrap() {
        Dependency::File(f) => assert_eq!(f, "dir/f.txt"),
        other => panic!("unexpected dependency {:?}", other),
    }
    match resolve_names_in_dependency("/p", "dir", &Dependency::Task(String::from("t"))).unwrap() {
        Dependency::Task(t) => assert_eq!(t, "/p/t"),
        other => panic!("unexpected dependency {:?}", other),
    }
    assert!(resolve_names_in_dependency("p", "dir", &Dependency::Task(String::from("t"))).is_err());
}

#[test]
fn resolve_artifact_path() {
    let a = resolve_names_in_artifact("out", &Artifact { filename: String::from("x.bin") }).unwrap();
    assert_eq!(a.filename, "out/x.bin");
}
