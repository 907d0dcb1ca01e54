use poe_items::lua_struct::{LuaKey, LuaStruct, LuaValue};

fn int_of(v: Option<&LuaValue>) -> Option<i64> {
    v.and_then(|v| v.as_int())
}

#[test]
fn as_int_only_for_integers() {
    assert_eq!(LuaValue::Integer(7).as_int(), Some(7));
    assert_eq!(LuaValue::Boolean(true).as_int(), None);
    assert_eq!(LuaValue::String("7".to_string()).as_int(), None);
    assert_eq!(LuaValue::Number(1.5f64.to_bits()).as_int(), None);
}

#[test]
fn string_keys_are_read_back() {
    let mut t = LuaStruct::new();
    t.insert_entry(LuaKey::String("level".to_string()), LuaValue::Integer(5));
    t.insert_entry(LuaKey::String("tradeHash".to_string()), LuaValue::Integer(99));
    assert_eq!(int_of(t.get("level")), Some(5));
    assert_eq!(int_of(t.get("tradeHash")), Some(99));
    assert!(t.get("missing").is_none());
    t.insert_entry(LuaKey::String("level".to_string()), LuaValue::Integer(6));
    assert_eq!(int_of(t.get("level")), Some(6));
    assert_eq!(t.data.len(), 2);
}

#[test]
fn integer_keys_fill_the_list_in_order() {
    let mut t = LuaStruct::new();
    t.insert_entry(LuaKey::Integer(1), LuaValue::Integer(10));
    t.insert_entry(LuaKey::Integer(2), LuaValue::Integer(20));
    assert_eq!(int_of(t.get_index(0)), Some(10));
    assert_eq!(int_of(t.get_index(1)), Some(20));
    assert!(t.get_index(2).is_none());
    assert!(t.data.is_empty());
}

#[test]
fn nested_tables_are_kept() {
    let mut inner = LuaStruct::new();
    inner.insert_entry(LuaKey::String("x".to_string()), LuaValue::Integer(1));
    let mut t = LuaStruct::new();
    t.insert_entry(LuaKey::String("inner".to_string()), LuaValue::Table(Box::new(inner)));
    match t.get("inner") {
        Some(LuaValue::Table(inner)) => assert_eq!(int_of(inner.get("x")), Some(1)),
        _ => panic!("expected a table"),
    }
}
