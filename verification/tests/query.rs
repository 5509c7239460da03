use cobble::cobble::resolve::NameResolutionError;
use cobble::cobl::query::{find_tasks_for_dir, find_tasks_for_query, TaskLocation, Workspace};

fn workspace() -> Workspace {
    Workspace {
        tasks: vec![
            (String::from("/build"), TaskLocation { dir: String::from(".") }),
            (String::from("/lib/compile"), TaskLocation { dir: String::from("lib") }),
            (String::from("/lib/sub/test"), TaskLocation { dir: String::from("./lib/sub") }),
            (String::from("/library/x"), TaskLocation { dir: String::from("library") }),
        ],
    }
}

#[test]
fn tasks_for_a_directory() {
    let ws = workspace();
    assert_eq!(find_tasks_for_dir(&ws, "/ws", "lib"), vec!["/lib/compile", "/lib/sub/test"]);
    assert_eq!(find_tasks_for_dir(&ws, "/ws", "."), vec!["/build", "/lib/compile", "/lib/sub/test", "/library/x"]);
    assert!(find_tasks_for_dir(&ws, "/ws", "other").is_empty());
}

#[test]
fn tasks_for_a_query() {
    let ws = workspace();
    let found = find_tasks_for_query(&ws, "/lib", &vec![String::from("compile"), String::from("/build")]).unwrap();
    assert_eq!(found, vec!["/lib/compile", "/build"]);
    match find_tasks_for_query(&ws, "/lib", &vec![String::from("missing")]) {
        Err(NameResolutionError::InvalidName(n)) => assert_eq!(n, "/lib/missing"),
        other => panic!("unexpected result {:?}", other),
    }
    match find_tasks_for_query(&ws, "lib", &vec![String::from("compile")]) {
        Err(NameResolutionError::InvalidProjectName(n)) => assert_eq!(n, "lib"),
        other => panic!("unexpected result {:?}", other),
    }
}
