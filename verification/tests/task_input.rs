use cobble::task_input::{
    current_task_input, current_task_input_cached, uncached_keys, TaskInputCache, TaskInputDeps, TaskInputError,
};

fn s(x: &str) -> String {
    String::from(x)
}

fn p(a: &str, b: &str) -> (String, String) {
    (s(a), s(b))
}

fn deps() -> TaskInputDeps {
    TaskInputDeps {
        project_source_deps: vec![s("proj/project.lua")],
        file_deps: vec![p("src", "proj/in.txt")],
        task_deps: vec![p("gen", "/proj/gen")],
        var_deps: vec![p("py", "python.version")],
    }
}

#[test]
fn task_input_takes_values_by_alias() {
    let inp = current_task_input(
        &deps(),
        &vec![p("proj/project.lua", "h1"), p("other", "h0")],
        &vec![p("proj/in.txt", "h2")],
        &vec![p("/proj/gen", "{\"x\":1}")],
        &vec![p("python.version", "\"3.12\"")],
    )
    .unwrap();
    assert_eq!(inp.project_source_hashes, vec![p("proj/project.lua", "h1")]);
    assert_eq!(inp.file_hashes, vec![p("src", "h2")]);
    assert_eq!(inp.task_outputs, vec![p("gen", "{\"x\":1}")]);
    assert_eq!(inp.vars, vec![p("py", "\"3.12\"")]);
}

#[test]
fn task_input_names_the_missing_variable() {
    let r = current_task_input(
        &deps(),
        &vec![p("proj/project.lua", "h1")],
        &vec![p("proj/in.txt", "h2")],
        &vec![p("/proj/gen", "1")],
        &vec![p("other", "2")],
    );
    match r {
        Err(TaskInputError::VarLookupError(n)) => assert_eq!(n, "python.version"),
        other => panic!("unexpected result {:?}", other.map(|_| ())),
    }
}

#[test]
fn task_input_reports_the_first_missing_value() {
    let r = current_task_input(&deps(), &vec![], &vec![], &vec![], &vec![]);
    match r {
        Err(TaskInputError::SourceHashMissing(n)) => assert_eq!(n, "proj/project.lua"),
        other => panic!("unexpected result {:?}", other.map(|_| ())),
    }
    let r = current_task_input(&deps(), &vec![p("proj/project.lua", "h")], &vec![], &vec![], &vec![]);
    match r {
        Err(TaskInputError::FileHashMissing(n)) => assert_eq!(n, "proj/in.txt"),
        other => panic!("unexpected result {:?}", other.map(|_| ())),
    }
    let r = current_task_input(
        &deps(),
        &vec![p("proj/project.lua", "h")],
        &vec![p("proj/in.txt", "h")],
        &vec![],
        &vec![],
    );
    match r {
        Err(TaskInputError::TaskOutputMissing(n)) => assert_eq!(n, "/proj/gen"),
        other => panic!("unexpected result {:?}", other.map(|_| ())),
    }
}

#[test]
fn task_input_prefers_the_cache_and_keeps_what_it_reads() {
    let mut cache = TaskInputCache {
        project_source_hashes: vec![p("proj/project.lua", "cached")],
        file_hashes: vec![p("other.txt", "h9")],
        task_outputs: vec![],
    };
    let d = deps();
    assert_eq!(uncached_keys(&d.file_deps, &cache.file_hashes), vec![s("proj/in.txt")]);
    let inp = current_task_input_cached(
        &d,
        &mut cache,
        &vec![p("proj/project.lua", "fresh")],
        &vec![p("proj/in.txt", "h2")],
        &vec![p("/proj/gen", "1")],
        &vec![p("python.version", "3")],
    )
    .unwrap();
    assert_eq!(inp.project_source_hashes, vec![p("proj/project.lua", "cached")]);
    assert_eq!(inp.file_hashes, vec![p("src", "h2")]);
    assert_eq!(inp.task_outputs, vec![p("gen", "1")]);
    assert_eq!(cache.project_source_hashes, vec![p("proj/project.lua", "cached")]);
    assert_eq!(cache.file_hashes, vec![p("other.txt", "h9"), p("proj/in.txt", "h2")]);
    assert_eq!(cache.task_outputs, vec![p("/proj/gen", "1")]);
}

#[test]
fn task_input_through_the_cache_names_what_is_missing() {
    let mut cache = TaskInputCache { project_source_hashes: vec![], file_hashes: vec![], task_outputs: vec![] };
    let r = current_task_input_cached(
        &deps(),
        &mut cache,
        &vec![p("proj/project.lua", "h")],
        &vec![],
        &vec![],
        &vec![],
    );
    match r {
        Err(TaskInputError::FileHashMissing(n)) => assert_eq!(n, "proj/in.txt"),
        other => panic!("unexpected result {:?}", other.map(|_| ())),
    }
    assert_eq!(cache.project_source_hashes, vec![p("proj/project.lua", "h")]);
}
