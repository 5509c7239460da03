use cobble::lua::s11n::{
    extract_lua_value_block, refify_ser_lua_value, CobbleUserData, SerLuaFunction, SerLuaTable, SerLuaValue,
    SerLuaValueBlock, SerLuaValueRef, SerLuaValueType,
};

fn block() -> Vec<SerLuaValue> {
    vec![
        SerLuaValue::Table(SerLuaTable { entries: vec![(1, 2), (3, 0)], metatable: Some(4) }),
        SerLuaValue::Nil,
        SerLuaValue::String(String::from("x")),
        SerLuaValue::Integer(7),
        SerLuaValue::Table(SerLuaTable { entries: vec![], metatable: None }),
        SerLuaValue::Function(SerLuaFunction { source: vec![1, 2, 3], upvalues: vec![(String::from("up"), 3)] }),
        SerLuaValue::UserData(CobbleUserData::PathLib),
        SerLuaValue::Number(1.5f64.to_bits()),
    ]
}

#[test]
fn value_types_have_names() {
    let values = block();
    let names: Vec<&str> = values.iter().map(|v| v.value_type().text()).collect();
    assert_eq!(names, vec!["table", "nil", "string", "int", "table", "function", "userdata", "float"]);
    assert_eq!(SerLuaValueType::Boolean.text(), "boolean");
    assert_eq!(CobbleUserData::ScriptDirLib.text(), "ScriptDirLib");
}

#[test]
fn tables_are_followed_in_their_block() {
    let values = block();
    let root = refify_ser_lua_value(&values, 0);
    let t = root.as_table().unwrap();
    assert_eq!(t.len(), 2);
    assert_eq!(t.index(), 0);
    let entries = t.entries();
    assert!(entries[0].0.is_nil());
    assert_eq!(entries[0].1.as_string(), Some("x"));
    assert_eq!(entries[1].0.as_integer(), Some(7));
    assert!(entries[1].1.as_table().is_some());
    assert_eq!(t.metatable().unwrap().as_table().unwrap().index(), 4);
}

#[test]
fn functions_keep_their_code_and_upvalues() {
    let values = block();
    let f = refify_ser_lua_value(&values, 5);
    let func = f.as_function().unwrap();
    assert_eq!(func.source(), &vec![1, 2, 3]);
    let ups = func.upvalues();
    assert_eq!(ups[0].0, "up");
    assert_eq!(ups[0].1.as_integer(), Some(7));
    assert!(f.as_table().is_none());
}

#[test]
fn scalar_values_read_back() {
    let values = block();
    assert!(matches!(refify_ser_lua_value(&values, 6), SerLuaValueRef::UserData(CobbleUserData::PathLib)));
    assert_eq!(refify_ser_lua_value(&values, 7).as_number(), Some(1.5f64.to_bits()));
    assert_eq!(refify_ser_lua_value(&values, 3).as_boolean(), None);
    assert_eq!(refify_ser_lua_value(&values, 6).as_userdata(), Some(CobbleUserData::PathLib));
}

#[test]
fn deterministic_block_keeps_a_laid_out_value() {
    let values = block();
    let b = SerLuaValueBlock { values: values.clone() };
    // Position 0 refers to 1, 2, 3, 0 and 4, in that order, so the block is
    // laid out the same; the function, userdata and number are unreachable.
    let d = b.as_deterministic();
    assert_eq!(d.values, values[0..5].to_vec());
}

#[test]
fn deterministic_block_lays_out_depth_first() {
    let values = vec![
        SerLuaValue::Table(SerLuaTable { entries: vec![(3, 1), (3, 2)], metatable: Some(2) }),
        SerLuaValue::Integer(9),
        SerLuaValue::Table(SerLuaTable { entries: vec![(1, 0)], metatable: None }),
        SerLuaValue::String(String::from("k")),
        SerLuaValue::Boolean(true),
    ];
    let d = SerLuaValueBlock { values }.as_deterministic();
    assert_eq!(
        d.values,
        vec![
            SerLuaValue::Table(SerLuaTable { entries: vec![(1, 2), (3, 4)], metatable: Some(4) }),
            SerLuaValue::String(String::from("k")),
            SerLuaValue::Integer(9),
            SerLuaValue::String(String::from("k")),
            SerLuaValue::Table(SerLuaTable { entries: vec![(5, 0)], metatable: None }),
            SerLuaValue::Integer(9),
        ]
    );
}

#[test]
fn extracted_function_takes_its_upvalues() {
    let values = block();
    let f = refify_ser_lua_value(&values, 5);
    let b = extract_lua_value_block(f);
    assert_eq!(
        b.values,
        vec![
            SerLuaValue::Function(SerLuaFunction { source: vec![1, 2, 3], upvalues: vec![(String::from("up"), 1)] }),
            SerLuaValue::Integer(7),
        ]
    );
}

#[test]
fn extracted_scalars_stand_alone() {
    let b = extract_lua_value_block(SerLuaValueRef::String("s"));
    assert_eq!(b.values, vec![SerLuaValue::String(String::from("s"))]);
    let b = extract_lua_value_block(SerLuaValueRef::Number(2.0f64.to_bits()));
    assert_eq!(b.values, vec![SerLuaValue::Number(2.0f64.to_bits())]);
    let b = extract_lua_value_block(SerLuaValueRef::UserData(CobbleUserData::CmdLib));
    assert_eq!(b.values, vec![SerLuaValue::UserData(CobbleUserData::CmdLib)]);
}

#[test]
fn deterministic_layout_is_kept_by_a_second_pass() {
    let values = vec![
        SerLuaValue::Table(SerLuaTable { entries: vec![(3, 1), (3, 2)], metatable: Some(2) }),
        SerLuaValue::Integer(9),
        SerLuaValue::Table(SerLuaTable { entries: vec![(1, 0)], metatable: None }),
        SerLuaValue::String(String::from("k")),
    ];
    let once = SerLuaValueBlock { values }.as_deterministic();
    let twice = once.as_deterministic();
    assert_eq!(twice.values, once.values);
}

#[test]
fn extracted_block_lays_out_keys_before_values() {
    let values = vec![
        SerLuaValue::Table(SerLuaTable { entries: vec![(2, 1)], metatable: None }),
        SerLuaValue::String(String::from("v")),
        SerLuaValue::Integer(1),
    ];
    let b = extract_lua_value_block(refify_ser_lua_value(&values, 0));
    assert_eq!(
        b.values,
        vec![
            SerLuaValue::Table(SerLuaTable { entries: vec![(1, 2)], metatable: None }),
            SerLuaValue::Integer(1),
            SerLuaValue::String(String::from("v")),
        ]
    );
}
