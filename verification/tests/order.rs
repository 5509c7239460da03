use cobble::lua::order::ValueOrder;
use cobble::lua::s11n::{
    extract_lua_value_block, refify_ser_lua_value, CobbleUserData, SerLuaFunction, SerLuaTable, SerLuaValue,
    SerLuaValueBlock, SerLuaValueRef,
};
use std::cmp::Ordering;

fn table(entries: Vec<(usize, usize)>, metatable: Option<usize>) -> SerLuaValue {
    SerLuaValue::Table(SerLuaTable { entries, metatable })
}

fn function(source: Vec<u8>, upvalues: Vec<(&str, usize)>) -> SerLuaValue {
    SerLuaValue::Function(SerLuaFunction {
        source,
        upvalues: upvalues.into_iter().map(|(n, p)| (String::from(n), p)).collect(),
    })
}

fn expected(o: Ordering) -> ValueOrder {
    match o {
        Ordering::Less => ValueOrder::Less,
        Ordering::Equal => ValueOrder::Equal,
        Ordering::Greater => ValueOrder::Greater,
    }
}

#[test]
fn values_order_by_type_first() {
    let block = vec![table(vec![], None), function(vec![], vec![])];
    let t = refify_ser_lua_value(&block, 0);
    let f = refify_ser_lua_value(&block, 1);
    let ordered = vec![
        SerLuaValueRef::Nil,
        SerLuaValueRef::Boolean(true),
        SerLuaValueRef::Integer(-5),
        SerLuaValueRef::Number(0.5f64.to_bits()),
        SerLuaValueRef::String(""),
        t,
        f,
        SerLuaValueRef::UserData(CobbleUserData::FsLib),
    ];
    for a in 0..ordered.len() {
        for b in 0..ordered.len() {
            assert_eq!(ordered[a].compare(&ordered[b]), expected(a.cmp(&b)), "{} {}", a, b);
        }
    }
}

#[test]
fn numbers_follow_the_total_order() {
    let numbers = [
        f64::NEG_INFINITY,
        -2.5,
        -0.0,
        0.0,
        1e-300,
        3.0,
        f64::INFINITY,
        f64::NAN,
        -f64::NAN,
    ];
    for a in numbers.iter() {
        for b in numbers.iter() {
            let got = SerLuaValueRef::Number(a.to_bits()).compare(&SerLuaValueRef::Number(b.to_bits()));
            assert_eq!(got, expected(a.total_cmp(b)), "{} {}", a, b);
        }
    }
}

#[test]
fn scalars_order_by_content() {
    assert_eq!(SerLuaValueRef::Boolean(false).compare(&SerLuaValueRef::Boolean(true)), ValueOrder::Less);
    assert_eq!(SerLuaValueRef::Integer(3).compare(&SerLuaValueRef::Integer(-3)), ValueOrder::Greater);
    assert_eq!(SerLuaValueRef::String("ab").compare(&SerLuaValueRef::String("a")), ValueOrder::Greater);
    assert_eq!(SerLuaValueRef::String("ab").compare(&SerLuaValueRef::String("b")), ValueOrder::Less);
    assert_eq!(SerLuaValueRef::String("é").compare(&SerLuaValueRef::String("z")), ValueOrder::Greater);
    assert_eq!(
        SerLuaValueRef::UserData(CobbleUserData::JsonLib).compare(&SerLuaValueRef::UserData(CobbleUserData::CmdLib)),
        ValueOrder::Greater
    );
    assert_eq!(SerLuaValueRef::Nil.compare(&SerLuaValueRef::Nil), ValueOrder::Equal);
}

#[test]
fn tables_compare_metatable_then_size_then_entries() {
    let block = vec![
        table(vec![(2, 3)], None),
        table(vec![(2, 4)], None),
        SerLuaValue::String(String::from("k")),
        SerLuaValue::Integer(1),
        SerLuaValue::Integer(2),
        table(vec![], None),
        table(vec![(2, 3)], Some(5)),
        table(vec![(2, 3), (3, 3)], None),
    ];
    let r = |i: usize| refify_ser_lua_value(&block, i);
    assert_eq!(r(0).compare(&r(1)), ValueOrder::Less);
    assert_eq!(r(1).compare(&r(0)), ValueOrder::Greater);
    assert_eq!(r(0).compare(&r(0)), ValueOrder::Equal);
    // A table without a metatable comes first, whatever its entries.
    assert_eq!(r(7).compare(&r(6)), ValueOrder::Less);
    assert_eq!(r(6).compare(&r(0)), ValueOrder::Greater);
    // Fewer entries come first.
    assert_eq!(r(5).compare(&r(0)), ValueOrder::Less);
    assert_eq!(r(7).compare(&r(1)), ValueOrder::Greater);
}

#[test]
fn cyclic_tables_compare_without_end() {
    // Two tables that each hold themselves under the key "self".
    let left = vec![table(vec![(1, 0)], None), SerLuaValue::String(String::from("self"))];
    let right = vec![SerLuaValue::String(String::from("self")), table(vec![(0, 1)], None)];
    let a = refify_ser_lua_value(&left, 0);
    let b = refify_ser_lua_value(&right, 1);
    assert_eq!(a.compare(&b), ValueOrder::Equal);
    assert_eq!(a.compare(&a), ValueOrder::Equal);
}

#[test]
fn functions_compare_code_then_upvalues_by_name() {
    let block = vec![
        function(vec![1, 2], vec![("b", 3), ("a", 4)]),
        function(vec![1, 2], vec![("a", 4), ("b", 3)]),
        function(vec![1, 3], vec![]),
        SerLuaValue::Integer(10),
        SerLuaValue::Integer(20),
        function(vec![1, 2], vec![("a", 3), ("b", 3)]),
        function(vec![1, 2], vec![("a", 4)]),
    ];
    let r = |i: usize| refify_ser_lua_value(&block, i);
    assert_eq!(r(0).compare(&r(1)), ValueOrder::Equal);
    assert_eq!(r(0).compare(&r(2)), ValueOrder::Less);
    assert_eq!(r(5).compare(&r(0)), ValueOrder::Less);
    assert_eq!(r(6).compare(&r(0)), ValueOrder::Less);
}

#[test]
fn laid_out_values_compare_equal_to_their_source() {
    let block = SerLuaValueBlock {
        values: vec![
            table(vec![(3, 1)], None),
            table(vec![(3, 1), (4, 5)], Some(6)),
            SerLuaValue::Boolean(false),
            SerLuaValue::String(String::from("me")),
            SerLuaValue::String(String::from("f")),
            function(vec![9, 9], vec![("z", 1), ("a", 2)]),
            table(vec![], None),
        ],
    };
    let fresh = block.as_deterministic();
    let a = refify_ser_lua_value(&fresh.values, 0);
    let b = refify_ser_lua_value(&block.values, 0);
    assert_eq!(a.compare(&b), ValueOrder::Equal);
    let t = refify_ser_lua_value(&block.values, 1);
    let copied = extract_lua_value_block(refify_ser_lua_value(&block.values, 1));
    assert_eq!(refify_ser_lua_value(&copied.values, 0).compare(&t), ValueOrder::Equal);
    assert_ne!(refify_ser_lua_value(&copied.values, 0).compare(&b), ValueOrder::Equal);
}
