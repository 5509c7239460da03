use cobble::datamodel::action::{
    action_from_lua, validate_action, validate_action_list, validate_name_alias_table, ActionCmd,
};
use cobble::datamodel::build_env::validate_build_env;
use cobble::datamodel::dependency::validate_dep_list;
use cobble::datamodel::tool::validate_tool;
use cobble::datamodel::validate::{
    key_validation_error, validate_is_bool, validate_is_string, validate_is_table, validate_required_key,
    validate_table_has_only_string_or_sequence_keys, validate_table_is_sequence,
};
use cobble::lua::value::{LuaKind, LuaTable, LuaValue};

fn s(text: &str) -> LuaValue {
    LuaValue { kind: LuaKind::Str, text: Ok(text.to_string()), debug: format!("String({:?})", text) }
}

fn integer(i: i64) -> LuaValue {
    LuaValue { kind: LuaKind::Integer(i), text: Ok(i.to_string()), debug: format!("Integer({})", i) }
}

fn boolean(b: bool) -> LuaValue {
    LuaValue {
        kind: LuaKind::Boolean(b),
        text: Err("error converting Lua boolean to String (expected string or number)".to_string()),
        debug: format!("Boolean({})", b),
    }
}

fn func(h: u64) -> LuaValue {
    LuaValue {
        kind: LuaKind::Function(h),
        text: Err("error converting Lua function to String (expected string or number)".to_string()),
        debug: "Function(Ref(0x1))".to_string(),
    }
}

fn table(pairs: Vec<(LuaValue, LuaValue)>) -> LuaValue {
    let mut len = 0usize;
    while pairs.iter().any(|(k, _)| matches!(k.kind, LuaKind::Integer(i) if i == (len as i64) + 1)) {
        len += 1;
    }
    LuaValue {
        kind: LuaKind::Table(LuaTable { len, pairs }),
        text: Err("error converting Lua table to String (expected string or number)".to_string()),
        debug: "Table(Ref(0x2))".to_string(),
    }
}

fn list(items: Vec<LuaValue>) -> LuaValue {
    table(items.into_iter().enumerate().map(|(i, v)| (integer(i as i64 + 1), v)).collect())
}

fn inner(v: &LuaValue) -> &LuaTable {
    match &v.kind {
        LuaKind::Table(t) => t,
        _ => panic!("not a table"),
    }
}

#[test]
fn string_tables_accept_names_and_positions() {
    let t = table(vec![(s("a"), s("x")), (integer(1), s("y"))]);
    assert_eq!(validate_table_has_only_string_or_sequence_keys(inner(&t)), Ok(()));
}

#[test]
fn string_tables_refuse_disjoint_indices() {
    let t = table(vec![(integer(1), s("y")), (integer(5), s("z"))]);
    assert_eq!(
        validate_table_has_only_string_or_sequence_keys(inner(&t)),
        Err("Disjoint number indices not allowed: 5".to_string())
    );
}

#[test]
fn string_tables_refuse_other_values() {
    let t = table(vec![(s("a"), boolean(true))]);
    assert_eq!(
        validate_table_has_only_string_or_sequence_keys(inner(&t)),
        Err("Expected a string, but got a boolean: Boolean(true)".to_string())
    );
}

#[test]
fn sequences_refuse_named_keys() {
    let t = table(vec![(integer(1), s("a")), (s("k"), s("b"))]);
    assert_eq!(
        validate_table_is_sequence(inner(&t)),
        Err("Sequence expected, but non-integer index found: String(\"k\")".to_string())
    );
}

#[test]
fn type_checks_give_the_value_or_a_message() {
    assert_eq!(validate_is_string(&s("a")), Ok(()));
    assert_eq!(validate_is_bool(&boolean(false)), Ok(false));
    assert_eq!(validate_is_bool(&integer(3)), Err("Expected a boolean, but got a integer: Integer(3)".to_string()));
    assert!(validate_is_table(&list(vec![])).is_ok());
    assert_eq!(validate_is_table(&s("a")).err(), Some("Expected a table, but got a string: String(\"a\")".to_string()));
}

#[test]
fn unknown_keys_list_the_allowed_ones() {
    assert_eq!(
        key_validation_error("nme", &vec!["name", "action"]),
        "Unknonwn property name: 'nme'. Expected one of [name, action]"
    );
}

#[test]
fn required_keys_must_be_present() {
    let t = table(vec![(s("name"), s("gcc"))]);
    assert_eq!(validate_required_key(inner(&t), "name"), Ok(()));
    assert_eq!(validate_required_key(inner(&t), "action"), Err("'name' property is required".to_string()));
}

#[test]
fn name_alias_tables_are_strings_or_string_tables() {
    assert_eq!(validate_name_alias_table(&s("gcc")), Ok(()));
    assert_eq!(
        validate_name_alias_table(&integer(1)),
        Err("Expected a table or string, but got a integer: Integer(1)".to_string())
    );
}

#[test]
fn command_actions_are_valid() {
    let a = table(vec![(integer(1), s("make")), (integer(2), s("all")), (s("tool"), s("make"))]);
    assert_eq!(validate_action(&a), Ok(()));
    assert_eq!(validate_action(&func(3)), Ok(()));
}

#[test]
fn actions_need_a_positional_element() {
    let a = table(vec![(s("tool"), s("make"))]);
    assert_eq!(
        validate_action(&a),
        Err("Action table must have either a single function or one or more strings as positional elements"
            .to_string())
    );
}

#[test]
fn actions_refuse_unknown_keys() {
    let a = table(vec![(integer(1), s("make")), (s("tools"), s("make"))]);
    assert_eq!(
        validate_action(&a),
        Err("Unknonwn property name: 'tools'. Expected one of [tool, env]".to_string())
    );
}

#[test]
fn actions_must_be_tables_or_functions() {
    assert_eq!(
        validate_action(&integer(2)),
        Err("Expected table or function, but got a integer:, Integer(2)".to_string())
    );
}

#[test]
fn action_lists_check_each_action() {
    let ok = list(vec![list(vec![s("poetry"), s("lock")]), func(1)]);
    assert_eq!(validate_action_list(&ok), Ok(()));
    let bad = list(vec![list(vec![s("poetry")]), integer(4)]);
    assert_eq!(
        validate_action_list(&bad),
        Err("Expected table or function, but got a integer:, Integer(4)".to_string())
    );
}

#[test]
fn dependency_lists_name_known_kinds() {
    let ok = table(vec![(s("files"), list(vec![s("a.txt")])), (s("tasks"), table(vec![(s("t"), s("/x"))]))]);
    assert_eq!(validate_dep_list(&ok), Ok(()));
    let bad = table(vec![(s("file"), list(vec![s("a.txt")]))]);
    assert_eq!(
        validate_dep_list(&bad),
        Err("Unknonwn property name: 'file'. Expected one of [files, tasks, vars, calc]".to_string())
    );
}

#[test]
fn build_envs_check_their_properties() {
    let env = table(vec![
        (s("name"), s("poetry")),
        (s("install"), list(vec![list(vec![s("poetry"), s("lock")]), list(vec![s("poetry"), s("install")])])),
        (s("deps"), table(vec![(s("files"), list(vec![s("pyproject.toml"), s("poetry.lock")]))])),
        (s("action"), func(7)),
    ]);
    assert_eq!(validate_build_env(&env), Ok(()));
    let bad = table(vec![(s("nam"), s("poetry"))]);
    assert_eq!(
        validate_build_env(&bad),
        Err("Unknonwn property name: 'nam'. Expected one of [name, install, deps]".to_string())
    );
}

#[test]
fn tools_need_a_name_and_an_action() {
    let tool = table(vec![(s("name"), s("gcc")), (s("action"), func(1)), (s("check"), list(vec![s("gcc")]))]);
    assert_eq!(validate_tool(&tool), Ok(()));
    let no_action = table(vec![(s("name"), s("gcc"))]);
    assert_eq!(validate_tool(&no_action), Err("'name' property is required".to_string()));
}

#[test]
fn command_action_without_tool_uses_cmd() {
    let a = action_from_lua(&list(vec![s("echo"), s("hi")])).unwrap();
    assert_eq!(a.tools, vec![("cmd".to_string(), "cmd".to_string())]);
    assert!(a.build_envs.is_empty());
    match a.cmd {
        ActionCmd::Cmd(args) => assert_eq!(args, vec!["echo".to_string(), "hi".to_string()]),
        ActionCmd::Func(_) => panic!("expected a command"),
    }
}

#[test]
fn command_action_with_build_env_keeps_its_alias() {
    let v = table(vec![(integer(1), s("pytest")), (s("build_env"), table(vec![(s("py"), s("poetry_env"))]))]);
    let a = action_from_lua(&v).unwrap();
    assert_eq!(a.build_envs, vec![("py".to_string(), "poetry_env".to_string())]);
    assert!(a.tools.is_empty());
}

#[test]
fn function_action_adds_the_cmd_tool() {
    let v = table(vec![(integer(1), func(9)), (s("tool"), s("git"))]);
    let a = action_from_lua(&v).unwrap();
    assert_eq!(a.tools.len(), 2);
    assert!(a.tools.contains(&("git".to_string(), "git".to_string())));
    assert!(a.tools.contains(&("cmd".to_string(), "cmd".to_string())));
    assert!(matches!(a.cmd, ActionCmd::Func(9)));
    let bare = action_from_lua(&func(4)).unwrap();
    assert_eq!(bare.tools, vec![("cmd".to_string(), "cmd".to_string())]);
}

#[test]
fn command_action_with_two_tools_is_refused() {
    let v = table(vec![(integer(1), s("x")), (s("tool"), list(vec![s("a"), s("b")]))]);
    assert_eq!(
        action_from_lua(&v).err(),
        Some("Can only use one build_env or tool with argument list action".to_string())
    );
}

#[test]
fn action_from_other_values_is_refused() {
    assert_eq!(action_from_lua(&integer(1)).err(), Some("Expected a lua table to convert to Action".to_string()));
    let v = table(vec![(integer(1), s("x")), (s("tool"), integer(3))]);
    assert_eq!(action_from_lua(&v).err(), Some("Invalid value for 'tool' property: Integer(3)".to_string()));
}
