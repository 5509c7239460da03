use cobble::lua::data::{integer_from_text, json_loads, toml_loads, LuaTree};

fn s(x: &str) -> String {
    String::from(x)
}

#[test]
fn json_loads_builds_lua_values() {
    let t = json_loads("{\"a\": [1, 2.5, \"x\", null, true], \"b\": 9223372036854775808, \"c\": -9223372036854775808}")
        .unwrap();
    assert_eq!(
        t,
        LuaTree::Table(vec![
            (
                s("a"),
                LuaTree::Sequence(vec![
                    LuaTree::Integer(1),
                    LuaTree::Number(s("2.5")),
                    LuaTree::String(s("x")),
                    LuaTree::Nil,
                    LuaTree::Boolean(true),
                ])
            ),
            (s("b"), LuaTree::Number(s("9223372036854775808"))),
            (s("c"), LuaTree::Integer(i64::MIN)),
        ])
    );
}

#[test]
fn json_loads_reports_parse_errors() {
    let e = json_loads("{").unwrap_err();
    assert!(e.starts_with("Error parsing json: "), "{}", e);
}

#[test]
fn toml_loads_builds_a_table() {
    let t = toml_loads("a = 1\n[t]\nd = 1979-05-27T07:32:00Z\nf = 1.5\nl = [\"x\"]\n").unwrap();
    assert_eq!(
        t,
        LuaTree::Table(vec![
            (s("a"), LuaTree::Integer(1)),
            (
                s("t"),
                LuaTree::Table(vec![
                    (s("d"), LuaTree::DateTime(s("1979-05-27T07:32:00Z"))),
                    (s("f"), LuaTree::Number(s("1.5"))),
                    (s("l"), LuaTree::Sequence(vec![LuaTree::String(s("x"))])),
                ])
            ),
        ])
    );
    let e = toml_loads("a = ").unwrap_err();
    assert!(e.starts_with("Error parsing toml: "), "{}", e);
}

#[test]
fn integer_texts_are_read_within_range() {
    assert_eq!(integer_from_text("42"), Some(42));
    assert_eq!(integer_from_text("-7"), Some(-7));
    assert_eq!(integer_from_text("9223372036854775807"), Some(i64::MAX));
    assert_eq!(integer_from_text("9223372036854775808"), None);
    assert_eq!(integer_from_text("1.0"), None);
    assert_eq!(integer_from_text("-"), None);
    assert_eq!(integer_from_text(""), None);
}
