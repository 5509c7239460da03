use cobble::config::{output_condition_from_lua, TaskOutputCondition};
use cobble::datamodel::action::ActionCmd;
use cobble::datamodel::build_env::build_env_from_lua;
use cobble::datamodel::dependency::dependency_list_from_lua;
use cobble::datamodel::tool::tool_from_lua;
use cobble::datamodel::types::{string_or_int_from_lua, StringOrInt};
use cobble::lua::value::{LuaKind, LuaTable, LuaValue};

fn s(text: &str) -> LuaValue {
    LuaValue { kind: LuaKind::Str, text: Ok(text.to_string()), debug: format!("String({:?})", text) }
}

fn integer(i: i64) -> LuaValue {
    LuaValue { kind: LuaKind::Integer(i), text: Ok(i.to_string()), debug: format!("Integer({})", i) }
}

fn func(h: u64) -> LuaValue {
    LuaValue {
        kind: LuaKind::Function(h),
        text: Err("error converting Lua function to String (expected string or number)".to_string()),
        debug: "Function(Ref(0x1))".to_string(),
    }
}

fn table(pairs: Vec<(LuaValue, LuaValue)>) -> LuaValue {
    let mut len = 0usize;
    while pairs.iter().any(|(k, _)| matches!(k.kind, LuaKind::Integer(i) if i == (len as i64) + 1)) {
        len += 1;
    }
    LuaValue {
        kind: LuaKind::Table(LuaTable { len, pairs }),
        text: Err("error converting Lua table to String (expected string or number)".to_string()),
        debug: "Table(Ref(0x2))".to_string(),
    }
}

fn list(items: Vec<LuaValue>) -> LuaValue {
    table(items.into_iter().enumerate().map(|(i, v)| (integer(i as i64 + 1), v)).collect())
}

#[test]
fn build_env_test_build_env_def_from_lua_table() {
    let build_env_table = table(vec![
        (s("name"), s("poetry")),
        (s("install"), list(vec![list(vec![s("poetry"), s("lock")]), list(vec![s("poetry"), s("install")])])),
        (s("deps"), table(vec![(s("files"), list(vec![s("pyproject.toml"), s("poetry.lock")]))])),
        (s("action"), func(1)),
    ]);

    let build_env = build_env_from_lua(&build_env_table).unwrap();
    assert_eq!(build_env.name, String::from("poetry"));
}

#[test]
fn build_env_reads_install_actions_and_deps() {
    let build_env_table = table(vec![
        (s("name"), s("poetry")),
        (s("install"), list(vec![list(vec![s("poetry"), s("lock")])])),
        (s("deps"), table(vec![(s("files"), list(vec![s("pyproject.toml")]))])),
        (s("action"), func(1)),
    ]);
    let env = build_env_from_lua(&build_env_table).unwrap();
    assert_eq!(env.install.len(), 1);
    match &env.install[0].cmd {
        ActionCmd::Cmd(args) => assert_eq!(args, &vec!["poetry".to_string(), "lock".to_string()]),
        ActionCmd::Func(_) => panic!("expected a command"),
    }
    assert_eq!(env.deps.files, vec![("pyproject.toml".to_string(), "pyproject.toml".to_string())]);
    assert!(matches!(env.action.cmd, ActionCmd::Func(1)));
}

#[test]
fn build_env_needs_a_name_and_an_install_list() {
    let no_name = table(vec![(s("install"), list(vec![])), (s("action"), func(1))]);
    assert_eq!(
        build_env_from_lua(&no_name).err(),
        Some("error converting Lua nil to String (expected string or number)".to_string())
    );
    let no_install = table(vec![(s("name"), s("e")), (s("action"), func(1))]);
    assert_eq!(
        build_env_from_lua(&no_install).err(),
        Some("error converting Lua nil to Vec (expected table)".to_string())
    );
    assert_eq!(
        build_env_from_lua(&s("x")).err(),
        Some("Unable to convert value to a BuildEnvDef: String(\"x\")".to_string())
    );
}

#[test]
fn tool_reads_name_install_and_action() {
    let tool = table(vec![
        (s("name"), s("gcc")),
        (s("install"), list(vec![s("apt"), s("install"), s("gcc")])),
        (s("action"), func(2)),
    ]);
    let t = tool_from_lua(&tool).unwrap();
    assert_eq!(t.name, "gcc");
    assert!(t.install.is_some() && t.check.is_none());
    assert!(matches!(t.action.cmd, ActionCmd::Func(2)));
    let with_check = table(vec![
        (s("name"), s("gcc")),
        (s("check"), list(vec![s("gcc"), s("--version")])),
        (s("action"), func(2)),
    ]);
    let t = tool_from_lua(&with_check).unwrap();
    assert!(t.install.is_none() && t.check.is_some());
}

#[test]
fn tool_actions_cannot_use_build_envs() {
    let tool = table(vec![
        (s("name"), s("gcc")),
        (s("action"), table(vec![(integer(1), s("x")), (s("build_env"), s("env"))])),
    ]);
    assert_eq!(
        tool_from_lua(&tool).err(),
        Some("External tools cannot depend on build environments".to_string())
    );
}

#[test]
fn dependency_lists_read_keys_and_names() {
    let deps = table(vec![
        (s("files"), list(vec![s("a.txt")])),
        (s("tasks"), table(vec![(s("b"), s("/build"))])),
    ]);
    let d = dependency_list_from_lua(&deps).unwrap();
    assert_eq!(d.files.unwrap().len(), 1);
    let tasks = d.tasks.unwrap();
    assert!(matches!(&tasks[0].0, StringOrInt::String(k) if k == "b"));
    assert_eq!(tasks[0].1, "/build");
    assert!(d.vars.is_none() && d.calc.is_none());
    let bad = table(vec![(s("other"), list(vec![]))]);
    assert_eq!(dependency_list_from_lua(&bad).err(), Some("Unknown dependency type: other".to_string()));
    assert_eq!(dependency_list_from_lua(&s("x")).err(), Some("error converting Lua string to table".to_string()));
}

#[test]
fn keys_are_strings_or_integers() {
    assert!(matches!(string_or_int_from_lua(&integer(3)), Ok(StringOrInt::Int(3))));
    assert!(matches!(string_or_int_from_lua(&s("k")), Ok(StringOrInt::String(ref k)) if k == "k"));
    assert_eq!(
        string_or_int_from_lua(&func(1)).err(),
        Some("Expected a string or integer, but got a function: Function(Ref(0x1))".to_string())
    );
}

#[test]
fn output_conditions_read_from_strings() {
    assert!(matches!(output_condition_from_lua(&s("On_Fail")), Ok(TaskOutputCondition::OnFail)));
    assert_eq!(
        output_condition_from_lua(&integer(1)).err(),
        Some("Expected a string value for output condition, but got a  integer.".to_string())
    );
}
