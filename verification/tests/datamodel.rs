use cobble::cobble::datamodel::{Dependency, DependencyList};
use cobble::datamodel::artifact::Artifact;
use cobble::datamodel::dependency::{
    alias_map_from_string_or_int_map, write_string_or_int_map, Dependencies, DependencyListByType,
};
use cobble::datamodel::types::{decimal_text, StringOrInt};

fn s(x: &str) -> String {
    String::from(x)
}

#[test]
fn key_texts() {
    assert_eq!(StringOrInt::String(s("a")).text(), "\"a\"");
    assert_eq!(StringOrInt::Int(42).text(), "42");
    assert_eq!(decimal_text(0), "0");
    assert_eq!(decimal_text(-7), "-7");
    assert_eq!(decimal_text(i64::MIN), i64::MIN.to_string());
    assert_eq!(decimal_text(i64::MAX), i64::MAX.to_string());
}

#[test]
fn alias_maps() {
    let m = alias_map_from_string_or_int_map(vec![
        (StringOrInt::Int(1), s("src/main.c")),
        (StringOrInt::String(s("hdr")), s("include/a.h")),
        (StringOrInt::String(s("hdr")), s("include/b.h")),
    ]);
    assert_eq!(m, vec![(s("src/main.c"), s("src/main.c")), (s("hdr"), s("include/b.h"))]);
}

#[test]
fn dependencies_from_a_list() {
    let list = DependencyListByType {
        files: Some(vec![(StringOrInt::Int(1), s("a.txt"))]),
        tasks: None,
        vars: Some(vec![(StringOrInt::String(s("v")), s("build.mode"))]),
        calc: Some(vec![(StringOrInt::Int(1), s("calc_a")), (StringOrInt::Int(2), s("calc_b"))]),
    };
    let deps = Dependencies::from_list(list);
    assert_eq!(deps.files, vec![(s("a.txt"), s("a.txt"))]);
    assert!(deps.tasks.is_empty());
    assert_eq!(deps.vars, vec![(s("v"), s("build.mode"))]);
    assert_eq!(deps.calc, vec![s("calc_a"), s("calc_b")]);
}

#[test]
fn dependency_list_texts() {
    let entries = vec![(StringOrInt::Int(1), s("a")), (StringOrInt::String(s("k")), s("b"))];
    assert_eq!(write_string_or_int_map(&entries), "1: a, \"k\": b");
    let list = DependencyListByType { files: Some(entries), tasks: None, vars: None, calc: Some(vec![]) };
    assert_eq!(list.text(), "{files={1: a, \"k\": b},calc={}}");
}

#[test]
fn dependency_list_puts_files_before_tasks() {
    let list = DependencyList::from_lists(Some(vec![s("f1"), s("f2")]), Some(vec![s("t1")]));
    let kinds: Vec<String> = list
        .0
        .iter()
        .map(|d| match d {
            Dependency::File(f) => format!("file:{}", f),
            Dependency::Task(t) => format!("task:{}", t),
        })
        .collect();
    assert_eq!(kinds, vec!["file:f1", "file:f2", "task:t1"]);
    assert!(DependencyList::from_lists(None, None).0.is_empty());
}

#[test]
fn artifact_text() {
    assert_eq!(Artifact { filename: s("out.o") }.text(), "out.o");
}
