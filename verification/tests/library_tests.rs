use lua_script_manager::{
    extract_sub_table, table_to_value, value_to_lua_table_value, Dispatch, EventBus, HandlerId,
    LuaTableCache, LuaTableSnapshot, LuaTableValue, ScriptRegistry, ScriptValue, TableMap,
    TestState,
};

fn text(s: &str) -> ScriptValue {
    ScriptValue::String(Ok(s.to_string()))
}

fn snapshot(pairs: Vec<(ScriptValue, ScriptValue)>) -> LuaTableSnapshot {
    LuaTableSnapshot::new(pairs).expect("distinct keys")
}

fn as_int(v: Option<&LuaTableValue>) -> Option<i64> {
    match v {
        Some(LuaTableValue::Int(i)) => Some(*i),
        _ => None,
    }
}

// ── conversion ────────────────────────────────────────────────────────────────

#[test]
fn primitives_keep_their_value() {
    assert!(matches!(value_to_lua_table_value(&ScriptValue::Integer(-3)), Ok(LuaTableValue::Int(-3))));
    assert!(matches!(value_to_lua_table_value(&ScriptValue::Boolean(true)), Ok(LuaTableValue::Bool(true))));
    let bits = 2.5f64.to_bits();
    match value_to_lua_table_value(&ScriptValue::Number(bits)) {
        Ok(LuaTableValue::Float(b)) => assert_eq!(f64::from_bits(b), 2.5),
        other => panic!("unexpected {other:?}"),
    }
    match value_to_lua_table_value(&text("hi")) {
        Ok(LuaTableValue::String(s)) => assert_eq!(s, "hi"),
        other => panic!("unexpected {other:?}"),
    }
}

#[test]
fn unconvertible_values_are_errors() {
    assert_eq!(
        value_to_lua_table_value(&ScriptValue::Nil).unwrap_err(),
        "cannot convert Nil to LuaTableValue"
    );
    assert_eq!(
        value_to_lua_table_value(&ScriptValue::Other("function".to_string())).unwrap_err(),
        "unsupported Luau type 'function' in LuaTableValue conversion"
    );
    assert_eq!(
        value_to_lua_table_value(&ScriptValue::String(Err("invalid utf-8".to_string()))).unwrap_err(),
        "invalid utf-8"
    );
    let t = snapshot(vec![(text("a"), ScriptValue::Other("userdata".to_string()))]);
    assert_eq!(
        table_to_value(&t).unwrap_err(),
        "unsupported Luau type 'userdata' in LuaTableValue conversion"
    );
    let t = snapshot(vec![(ScriptValue::Number(0), text("x"))]);
    assert_eq!(
        table_to_value(&t).unwrap_err(),
        "unsupported table key type 'number' in LuaTableValue conversion"
    );
}

#[test]
fn the_first_failure_in_conversion_order_is_reported() {
    // Keys are checked first, in walk order.
    let t = snapshot(vec![(text("x"), ScriptValue::Nil), (ScriptValue::Boolean(true), text("1"))]);
    assert_eq!(
        table_to_value(&t).unwrap_err(),
        "unsupported table key type 'boolean' in LuaTableValue conversion"
    );
    // String-keyed values before integer-keyed ones.
    let t = snapshot(vec![
        (ScriptValue::Integer(2), ScriptValue::Other("thread".to_string())),
        (text("x"), ScriptValue::Nil),
    ]);
    assert_eq!(table_to_value(&t).unwrap_err(), "cannot convert Nil to LuaTableValue");
    // With string keys, integer-keyed values in walk order.
    let t = snapshot(vec![
        (text("x"), ScriptValue::Integer(0)),
        (ScriptValue::Integer(5), ScriptValue::Other("a".to_string())),
        (ScriptValue::Integer(3), ScriptValue::Other("b".to_string())),
    ]);
    assert_eq!(
        table_to_value(&t).unwrap_err(),
        "unsupported Luau type 'a' in LuaTableValue conversion"
    );
    // Without string keys, in the order of the keys.
    let t = snapshot(vec![
        (ScriptValue::Integer(5), ScriptValue::Other("a".to_string())),
        (ScriptValue::Integer(3), ScriptValue::Other("b".to_string())),
    ]);
    assert_eq!(
        table_to_value(&t).unwrap_err(),
        "unsupported Luau type 'b' in LuaTableValue conversion"
    );
    // A list, in the order of the keys; errors come up from nested tables.
    let inner = ScriptValue::Table(snapshot(vec![(text("f"), ScriptValue::Other("function".to_string()))]));
    let t = snapshot(vec![
        (ScriptValue::Integer(2), ScriptValue::Nil),
        (ScriptValue::Integer(1), inner),
    ]);
    assert_eq!(
        table_to_value(&t).unwrap_err(),
        "unsupported Luau type 'function' in LuaTableValue conversion"
    );
    assert_eq!(
        extract_sub_table(&ScriptValue::Table(t), "define").unwrap_err(),
        "unsupported Luau type 'function' in LuaTableValue conversion"
    );
}

#[test]
fn consecutive_integer_keys_make_a_list_in_key_order() {
    // Walk order 3, 1, 2: the list still follows the keys.
    let t = snapshot(vec![
        (ScriptValue::Integer(3), text("c")),
        (ScriptValue::Integer(1), text("a")),
        (ScriptValue::Integer(2), text("b")),
    ]);
    match table_to_value(&t) {
        Ok(LuaTableValue::List(items)) => {
            let texts: Vec<String> = items
                .into_iter()
                .map(|v| match v {
                    LuaTableValue::String(s) => s,
                    _ => String::new(),
                })
                .collect();
            assert_eq!(texts, vec!["a", "b", "c"]);
        }
        other => panic!("unexpected {other:?}"),
    }
    // The empty table is the empty list.
    assert!(matches!(table_to_value(&snapshot(vec![])), Ok(LuaTableValue::List(v)) if v.is_empty()));
}

#[test]
fn other_tables_are_keyed_by_key_text() {
    // Keys 1 and 3: not consecutive, so a table keyed "1" and "3".
    let t = snapshot(vec![
        (ScriptValue::Integer(1), ScriptValue::Integer(10)),
        (ScriptValue::Integer(3), ScriptValue::Integer(30)),
    ]);
    match table_to_value(&t) {
        Ok(LuaTableValue::Table(m)) => {
            assert_eq!(m.len(), 2);
            assert_eq!(as_int(m.get("1")), Some(10));
            assert_eq!(as_int(m.get("3")), Some(30));
        }
        other => panic!("unexpected {other:?}"),
    }
    // Mixed keys, a negative integer key, and an integer key that shadows a
    // string key of the same text.
    let t = snapshot(vec![
        (text("-5"), ScriptValue::Integer(1)),
        (ScriptValue::Integer(-5), ScriptValue::Integer(2)),
        (text("name"), ScriptValue::Integer(3)),
    ]);
    match table_to_value(&t) {
        Ok(LuaTableValue::Table(m)) => {
            assert_eq!(m.len(), 2);
            assert_eq!(as_int(m.get("-5")), Some(2));
            assert_eq!(as_int(m.get("name")), Some(3));
        }
        other => panic!("unexpected {other:?}"),
    }
}

#[test]
fn nested_tables_convert_recursively() {
    let inner = ScriptValue::Table(snapshot(vec![(text("x"), ScriptValue::Boolean(false))]));
    let t = snapshot(vec![(text("inner"), inner)]);
    match table_to_value(&t) {
        Ok(LuaTableValue::Table(m)) => match m.get("inner") {
            Some(LuaTableValue::Table(i)) => {
                assert!(matches!(i.get("x"), Some(LuaTableValue::Bool(false))))
            }
            other => panic!("unexpected {other:?}"),
        },
        other => panic!("unexpected {other:?}"),
    }
}

#[test]
fn sub_table_reads() {
    assert!(matches!(extract_sub_table(&ScriptValue::Nil, "define"), Ok(None)));
    assert_eq!(
        extract_sub_table(&ScriptValue::Boolean(true), "define").unwrap_err(),
        "sub-table 'define' is not a table (got boolean)"
    );
    assert_eq!(
        extract_sub_table(&ScriptValue::Number(0), "stats").unwrap_err(),
        "sub-table 'stats' is not a table (got number)"
    );
    // A top-level list is read with the keys "1" .. "n".
    let list = ScriptValue::Table(snapshot(vec![
        (ScriptValue::Integer(2), ScriptValue::Integer(20)),
        (ScriptValue::Integer(1), ScriptValue::Integer(10)),
    ]));
    let empty = ScriptValue::Table(snapshot(vec![]));
    assert!(extract_sub_table(&empty, "empty").unwrap().unwrap().is_empty());
    let m = extract_sub_table(&list, "define").unwrap().unwrap();
    assert_eq!(m.len(), 2);
    assert_eq!(as_int(m.get("1")), Some(10));
    assert_eq!(as_int(m.get("2")), Some(20));
}

#[test]
fn snapshots_refuse_repeated_keys() {
    assert!(LuaTableSnapshot::new(vec![(text("a"), text("1")), (text("a"), text("2"))]).is_none());
    assert!(LuaTableSnapshot::new(vec![
        (ScriptValue::Integer(1), text("1")),
        (ScriptValue::Integer(1), text("2"))
    ])
    .is_none());
    // The integer 1 and the string "1" are different Luau keys.
    let t = snapshot(vec![(ScriptValue::Integer(1), text("1")), (text("1"), text("2"))]);
    assert_eq!(t.len(), 2);
}

// ── table map ─────────────────────────────────────────────────────────────────

#[test]
fn table_map_insert_get_remove() {
    let mut m = TableMap::new();
    assert!(m.is_empty());
    assert!(m.insert("a".to_string(), LuaTableValue::Int(1)).is_none());
    assert!(matches!(m.insert("a".to_string(), LuaTableValue::Int(2)), Some(LuaTableValue::Int(1))));
    assert_eq!(m.len(), 1);
    assert_eq!(as_int(m.get("a")), Some(2));
    assert!(m.contains_key("a"));
    assert!(matches!(m.remove("a"), Some(LuaTableValue::Int(2))));
    assert!(m.get("a").is_none());
    assert!(m.remove("a").is_none());
}

// ── registry ──────────────────────────────────────────────────────────────────

#[test]
fn registry_second_registration_wins() {
    let mut r = ScriptRegistry::new();
    r.register("cards.a".to_string(), "one.luau".to_string());
    {
        let m = r.get("cards.a").unwrap();
        assert_eq!(m.path, "one.luau");
        assert_eq!(m.version, 0);
    }
    r.register("cards.a".to_string(), "two.luau".to_string());
    let m = r.get("cards.a").unwrap();
    assert_eq!(m.path, "two.luau");
    assert_eq!(m.version, 1);
    assert_eq!(r.len(), 1);
    assert!(r.get("cards.b").is_none());
    if let Some(meta) = r.get_mut("cards.a") {
        meta.version = 9;
    }
    assert_eq!(r.get("cards.a").unwrap().version, 9);
}

// ── cache ─────────────────────────────────────────────────────────────────────

#[test]
fn cache_refuses_empty_segments() {
    assert_eq!(
        LuaTableCache::with_segments(0, 80, 19, 100).err().unwrap(),
        "WTinyLFU init: invalid window cache size: 0"
    );
    assert_eq!(
        LuaTableCache::with_segments(1, 0, 19, 100).err().unwrap(),
        "WTinyLFU init: invalid protected cache size: 0"
    );
    assert_eq!(
        LuaTableCache::with_segments(1, 80, 0, 100).err().unwrap(),
        "WTinyLFU init: invalid probationary cache size: 0"
    );
    assert_eq!(
        LuaTableCache::with_segments(1, 80, 19, 0).err().unwrap(),
        "WTinyLFU init: invalid number of samples: 0"
    );
}

#[test]
fn cache_put_get_remove_purge() {
    let mut c = LuaTableCache::with_segments(1, 2, 2, 5).unwrap();
    assert!(c.is_empty());
    assert_eq!(c.cap(), 5);
    assert_eq!(c.segment_caps(), (1, 4));
    assert!(c.put("a".to_string(), 1).is_empty());
    assert_eq!(c.get("a"), Some(1));
    assert_eq!(c.peek("a"), Some(1));
    assert!(c.contains("a"));
    assert_eq!(c.len(), 1);
    let (w, main) = c.segment_lens();
    assert_eq!(w + main, 1);
    assert_eq!(c.remove("a"), Some(1));
    assert_eq!(c.get("a"), None);
    c.put("b".to_string(), 2);
    c.put("c".to_string(), 3);
    assert_eq!(c.get("c"), Some(3));
    c.purge();
    assert!(c.is_empty());
    assert_eq!(c.cap(), 5);
}

#[test]
fn cache_keeps_entries_while_the_window_has_room() {
    let mut c = LuaTableCache::with_segments(2, 2, 2, 6).unwrap();
    assert!(c.put("a".to_string(), 1).is_empty());
    assert!(c.put("b".to_string(), 2).is_empty());
    assert!(c.contains("a") && c.contains("b"));
    assert_eq!(c.segment_lens(), (2, 0));
    // Storing a cached id again evicts nothing.
    assert_eq!(c.put("a".to_string(), 3), vec![1]);
    assert!(c.contains("b"));
    assert_eq!(c.peek("a"), Some(3));
}

#[test]
fn cache_never_exceeds_its_capacity() {
    let mut c = LuaTableCache::with_segments(1, 2, 2, 5).unwrap();
    let mut released = 0;
    for i in 0..20u64 {
        released += c.put(format!("s{i}"), i).len();
        assert!(c.len() <= c.cap());
        // The entry just stored is always there.
        assert_eq!(c.peek(&format!("s{i}")), Some(i));
    }
    assert_eq!(released + c.len(), 20);
}

// ── event bus ─────────────────────────────────────────────────────────────────

#[test]
fn lua_handlers_fire_before_rust_handlers() {
    let mut bus = EventBus::new();
    bus.on("e", HandlerId::new(1));
    bus.on_lua("e", HandlerId::new(2), 0x10);
    bus.on("e", HandlerId::new(3));
    bus.on_lua("e", HandlerId::new(4), 0x20);
    assert_eq!(
        bus.emit_plan("e"),
        vec![
            Dispatch::Lua(HandlerId::new(2)),
            Dispatch::Lua(HandlerId::new(4)),
            Dispatch::Rust(HandlerId::new(1)),
            Dispatch::Rust(HandlerId::new(3)),
        ]
    );
    assert!(bus.emit_plan("other").is_empty());
}

#[test]
fn off_all_clears_one_event_only() {
    let mut bus = EventBus::new();
    bus.on("e", HandlerId::new(1));
    bus.on_lua("e", HandlerId::new(2), 0x10);
    bus.on("f", HandlerId::new(3));
    assert_eq!(bus.off_all("e"), vec![HandlerId::new(2)]);
    assert!(bus.emit_plan("e").is_empty());
    assert_eq!(bus.emit_plan("f"), vec![Dispatch::Rust(HandlerId::new(3))]);
    assert_eq!(bus.off_lua("e", 0x10), None);
}

#[test]
fn same_function_subscribed_again_points_to_the_new_subscription() {
    let mut bus = EventBus::new();
    bus.on_lua("e", HandlerId::new(1), 0x10);
    bus.on_lua("e", HandlerId::new(2), 0x10);
    // Unsubscribing by the function finds its latest subscription.
    assert_eq!(bus.off_lua("e", 0x10), Some(HandlerId::new(2)));
    assert_eq!(bus.emit_plan("e"), vec![Dispatch::Lua(HandlerId::new(1))]);
    bus.off("e", HandlerId::new(1)); // a Rust unsubscription leaves Luau handlers alone
    assert_eq!(bus.emit_plan("e"), vec![Dispatch::Lua(HandlerId::new(1))]);
}

// ── test state ────────────────────────────────────────────────────────────────

#[test]
fn test_state_records_in_order() {
    let mut s = TestState::default();
    assert_eq!(s.counter, 0);
    assert!(s.calls.is_empty());
    s.record("died".to_string(), "a".to_string());
    s.record("died".to_string(), "b".to_string());
    s.record("born".to_string(), "c".to_string());
    assert_eq!(s.calls.get("died").unwrap(), &vec!["a".to_string(), "b".to_string()]);
    assert_eq!(s.calls.get("born").unwrap(), &vec!["c".to_string()]);
    s.increment();
    assert_eq!(s.counter, 1);
}
