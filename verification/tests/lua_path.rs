use cobble::lua::path::{
    glob_patterns, glob_request, join_components, normalize_path_for_glob, select_glob_entries, strip_prefix,
    GlobEntry,
};
use cobble::lua::value::{LuaKind, LuaTable, LuaValue};

fn s(text: &str) -> LuaValue {
    LuaValue { kind: LuaKind::Str, text: Ok(text.to_string()), debug: format!("String({:?})", text) }
}

fn nil() -> LuaValue {
    LuaValue {
        kind: LuaKind::Nil,
        text: Err("error converting Lua nil to String (expected string or number)".to_string()),
        debug: "Nil".to_string(),
    }
}

fn boolean(b: bool) -> LuaValue {
    LuaValue {
        kind: LuaKind::Boolean(b),
        text: Err("error converting Lua boolean to String (expected string or number)".to_string()),
        debug: format!("Boolean({})", b),
    }
}

fn table(pairs: Vec<(LuaValue, LuaValue)>) -> LuaValue {
    LuaValue {
        kind: LuaKind::Table(LuaTable { len: 0, pairs }),
        text: Err("error converting Lua table to String (expected string or number)".to_string()),
        debug: "Table(Ref(0x3))".to_string(),
    }
}

fn entry(path: &str, is_dir: bool) -> GlobEntry {
    GlobEntry { path: path.to_string(), is_dir, is_file: !is_dir }
}

#[test]
fn paths_join_component_by_component() {
    let parts = vec!["a".to_string(), "b".to_string(), "c.txt".to_string()];
    assert_eq!(join_components(&parts), "a/b/c.txt");
    let absolute = vec!["a".to_string(), "/x".to_string(), "y".to_string()];
    assert_eq!(join_components(&absolute), "/x/y");
}

#[test]
fn strip_prefix_takes_the_prefix_off() {
    assert_eq!(strip_prefix("src/lib/a.rs", "src"), Ok("lib/a.rs".to_string()));
    assert_eq!(
        strip_prefix("src/a.rs", "doc"),
        Err("Cannot strip prefix. Path src/a.rs does not start with doc".to_string())
    );
}

#[test]
fn glob_base_drops_current_dir_components() {
    assert_eq!(normalize_path_for_glob("./a/./b"), "a/b");
    assert_eq!(normalize_path_for_glob("/x/./y/"), "/x/y");
}

#[test]
fn glob_request_from_a_pattern_alone() {
    let req = glob_request(&s("**/*.rs"), &nil(), &nil()).unwrap();
    assert_eq!(req.base, None);
    assert_eq!(req.patterns, vec!["**/*.rs".to_string()]);
    assert!(req.excluded.is_empty() && req.dirs && req.files);
}

#[test]
fn glob_request_with_base_and_options() {
    let opts = table(vec![
        (s("exclude"), s("target/**")),
        (s("include"), table(vec![(s("x"), s("*.toml"))])),
        (s("include_dirs"), boolean(false)),
    ]);
    let req = glob_request(&s("/ws"), &s("src/**"), &opts).unwrap();
    assert_eq!(req.base, Some("/ws".to_string()));
    assert_eq!(req.patterns, vec!["src/**".to_string(), "*.toml".to_string()]);
    assert_eq!(req.excluded, vec!["target/**".to_string()]);
    assert!(!req.dirs && req.files);
}

#[test]
fn glob_request_errors() {
    assert_eq!(
        glob_request(&s("a"), &boolean(true), &nil()).err(),
        Some("Expected path (string) or options (table) as second argument".to_string())
    );
    assert_eq!(
        glob_request(&s("a"), &table(vec![]), &s("b")).err(),
        Some("Unexpected argument after path (string) and options (table)".to_string())
    );
    assert_eq!(
        glob_request(&s("a"), &s("b"), &boolean(true)).err(),
        Some("Expected options (table) or nil as third argument".to_string())
    );
    let bad_option = table(vec![(s("recursive"), boolean(true))]);
    assert_eq!(glob_request(&s("a"), &bad_option, &nil()).err(), Some("Invalid option: recursive".to_string()));
    let bad_flag = table(vec![(s("include_files"), s("yes"))]);
    assert_eq!(
        glob_request(&s("a"), &bad_flag, &nil()).err(),
        Some("Expected boolean value for 'include_files' option".to_string())
    );
}

#[test]
fn glob_patterns_are_taken_from_the_base() {
    let req = glob_request(&s("./ws/."), &s("**/foo.txt"), &table(vec![(s("exclude"), s("one/**"))])).unwrap();
    let pats = glob_patterns(&req).unwrap();
    assert_eq!(pats.base(), &Some("ws".to_string()));
    assert_eq!(pats.patterns(), &vec!["ws/**/foo.txt".to_string()]);
    assert_eq!(pats.excluded(), &vec!["ws/one/**".to_string()]);
}

#[test]
fn glob_patterns_refuse_absolute_patterns_under_a_base() {
    let req = glob_request(&s("/ws"), &s("/etc/*"), &nil()).unwrap();
    assert_eq!(
        glob_patterns(&req).err(),
        Some("If base path is provided, glob pattern must be relative. base=/ws, glob=/etc/*".to_string())
    );
}

#[test]
fn glob_patterns_refuse_bad_exclusions() {
    let req = glob_request(&s("*.rs"), &table(vec![(s("exclude"), s("a[b"))]), &nil()).unwrap();
    let err = glob_patterns(&req).err().unwrap();
    assert!(err.starts_with("Invalid glob pattern: Pattern syntax error near position"), "{}", err);
}

#[test]
fn selected_paths_are_relative_sorted_and_unique() {
    let req = glob_request(&s("/ws"), &s("**/foo.txt"), &table(vec![(s("exclude"), s("four/**"))])).unwrap();
    let pats = glob_patterns(&req).unwrap();
    let entries = vec![
        entry("/ws/one/two/three/foo.txt", false),
        entry("/ws/one/two/foo.txt", false),
        entry("/ws/four/five/six/foo.txt", false),
        entry("/ws/one/two/foo.txt", false),
    ];
    assert_eq!(
        select_glob_entries(&pats, true, true, &entries),
        vec!["one/two/foo.txt".to_string(), "one/two/three/foo.txt".to_string()]
    );
}

#[test]
fn selected_paths_leave_out_directories_when_asked() {
    let req = glob_request(&s("*"), &nil(), &nil()).unwrap();
    let pats = glob_patterns(&req).unwrap();
    let entries = vec![entry("b", true), entry("a", false)];
    assert_eq!(select_glob_entries(&pats, false, true, &entries), vec!["a".to_string()]);
    assert_eq!(select_glob_entries(&pats, true, false, &entries), vec!["b".to_string()]);
}
