//! The manager's scenarios, played through the decisions the library makes:
//! the host's part (running Luau) is stood in for by the values it would
//! hand over.
use lua_script_manager::{
    expect_int, expect_string, finish_call, load_failure, CallOutcome, plan_call, read_table, take_list,
    take_optional, take_required, CallResult, Dispatch, EventBus, FromLuaTable, FunctionSlot,
    HandlerId, HandlerIdCounter, LuaScriptError, LuaScriptManager, LuaTableCache,
    LuaTableSnapshot, ModuleSource, ScriptEntry, ScriptValue, TableMap, TableRead, TestState,
};

fn text(s: &str) -> ScriptValue {
    ScriptValue::String(Ok(s.to_string()))
}

fn table(pairs: Vec<(ScriptValue, ScriptValue)>) -> ScriptValue {
    ScriptValue::Table(LuaTableSnapshot::new(pairs).expect("distinct keys"))
}

#[derive(Debug)]
struct CardDef {
    cost: String,
    power: Option<i64>,
    keywords: Vec<String>,
}

impl FromLuaTable for CardDef {
    fn from_lua_table(mut map: TableMap) -> Result<Self, String> {
        let cost = expect_string("cost", false, take_required(&mut map, "cost")?)?;
        let power = match take_optional(&mut map, "power") {
            None => None,
            Some(v) => Some(expect_int("power", false, v)?),
        };
        let mut keywords = Vec::new();
        for item in take_list(&mut map, "keywords")? {
            keywords.push(expect_string("keywords", true, item)?);
        }
        Ok(Self { cost, power, keywords })
    }
}

struct Dummy {
    _unused: String,
}

impl FromLuaTable for Dummy {
    fn from_lua_table(mut map: TableMap) -> Result<Self, String> {
        let _unused = expect_string("_unused", false, take_required(&mut map, "_unused")?)?;
        Ok(Self { _unused })
    }
}

/// What the manager hands back for a sub-table read.
fn get_table<T: FromLuaTable>(value: &ScriptValue, name: &str) -> Option<T> {
    match read_table::<T>(value, name) {
        TableRead::Found(v) => Some(v),
        _ => None,
    }
}

fn manager() -> LuaScriptManager {
    LuaScriptManager::new(LuaTableCache::with_segments(1, 80, 19, 100).expect("cache"))
}

// ── get_table ─────────────────────────────────────────────────────────────────

#[test]
fn get_table_converts_define_block() {
    // define = { cost = "2G", power = 3, keywords = { "trample", "haste" } }
    let define = table(vec![
        (text("cost"), text("2G")),
        (text("power"), ScriptValue::Integer(3)),
        (
            text("keywords"),
            table(vec![
                (ScriptValue::Integer(1), text("trample")),
                (ScriptValue::Integer(2), text("haste")),
            ]),
        ),
    ]);

    let def: CardDef = get_table(&define, "define").expect("get_table should return Some");

    assert_eq!(def.cost, "2G");
    assert_eq!(def.power, Some(3));
    assert_eq!(def.keywords, vec!["trample", "haste"]);
}

#[test]
fn get_table_returns_none_for_missing_key() {
    // -- script vacío: the environment holds nothing under `define`.
    let result: Option<Dummy> = get_table(&ScriptValue::Nil, "define");
    assert!(result.is_none());
    assert!(matches!(read_table::<Dummy>(&ScriptValue::Nil, "define"), TableRead::Absent));
}

#[test]
fn get_table_reports_conversion_and_read_failures() {
    let define = table(vec![(text("cost"), ScriptValue::Integer(1))]);
    match read_table::<CardDef>(&define, "define") {
        TableRead::ConversionFailed(m) => assert_eq!(m, "field `cost`: expected String(v), got Int(1)"),
        other => panic!("expected ConversionFailed, got {other:?}"),
    }
    match read_table::<CardDef>(&ScriptValue::Integer(5), "define") {
        TableRead::ReadFailed(m) => assert_eq!(m, "sub-table 'define' is not a table (got integer)"),
        other => panic!("expected ReadFailed, got {other:?}"),
    }
    let bad = table(vec![(ScriptValue::Boolean(true), text("x"))]);
    match read_table::<CardDef>(&bad, "define") {
        TableRead::ReadFailed(m) => {
            assert_eq!(m, "unsupported table key type 'boolean' in LuaTableValue conversion")
        }
        other => panic!("expected ReadFailed, got {other:?}"),
    }
}

// ── call ──────────────────────────────────────────────────────────────────────

#[test]
fn call_returns_function_not_found_when_procedure_absent() {
    // define = { cost = "G" }: nothing under `when_enters_battlefield`.
    let result =
        plan_call::<()>("cards.no_etb", "when_enters_battlefield", Ok(FunctionSlot::Nil)).unwrap();

    assert!(
        matches!(result, CallResult::FunctionNotFound),
        "expected FunctionNotFound, got {result:?}"
    );
}

#[test]
fn call_executes_procedure_and_mutates_state() {
    let mut state = TestState::default();
    assert!(plan_call::<()>("cards.etb", "when_enters_battlefield", Ok(FunctionSlot::Function))
        .is_none());
    // function when_enters_battlefield() test.increment() test.increment() end
    state.increment();
    state.increment();
    let result = finish_call(CallOutcome::Returned(()));
    assert!(matches!(result, CallResult::Returned(())));
    assert_eq!(state.counter, 2);
}

#[test]
fn call_returns_script_error_on_runtime_error() {
    let result = finish_call::<()>(CallOutcome::Raised("cards.broken:3: algo salió mal".to_string()));
    assert!(matches!(result, CallResult::ScriptError(_)), "expected ScriptError, got {result:?}");
    match result {
        CallResult::ScriptError(LuaScriptError::RuntimeError(m)) => {
            assert_eq!(m, "cards.broken:3: algo salió mal")
        }
        other => panic!("unexpected {other:?}"),
    }
}

#[test]
fn unconvertible_return_value_is_a_conversion_error() {
    // function f() return {} end, called for an i64.
    let result = finish_call::<i64>(CallOutcome::NotConvertible(
        "error converting Lua table to i64".to_string(),
    ));
    match result {
        CallResult::ScriptError(LuaScriptError::ConversionError(m)) => {
            assert_eq!(m, "error converting Lua table to i64")
        }
        other => panic!("expected ConversionError, got {other:?}"),
    }
}

#[test]
fn call_of_a_non_function_is_a_script_error() {
    let r = plan_call::<()>("cards.x", "define", Ok(FunctionSlot::Other("table".to_string())));
    match r {
        Some(CallResult::ScriptError(LuaScriptError::RuntimeError(m))) => {
            assert_eq!(m, "cards.x::define: expected function, got table")
        }
        other => panic!("unexpected {other:?}"),
    }
    let r = plan_call::<()>("cards.x", "f", Err("boom".to_string()));
    match r {
        Some(CallResult::ScriptError(LuaScriptError::RuntimeError(m))) => {
            assert_eq!(m, "cards.x::f: boom")
        }
        other => panic!("unexpected {other:?}"),
    }
    match load_failure::<()>("script 'x' not found in registry".to_string()) {
        CallResult::ScriptError(LuaScriptError::RuntimeError(m)) => {
            assert_eq!(m, "script 'x' not found in registry")
        }
        other => panic!("unexpected {other:?}"),
    }
}

#[test]
fn call_result_into_option() {
    let some: Option<i64> = finish_call(CallOutcome::Returned(4)).into();
    assert_eq!(some, Some(4));
    let none: Option<i64> = CallResult::FunctionNotFound.into();
    assert_eq!(none, None);
    let none: Option<i64> =
        CallResult::ScriptError(LuaScriptError::ConversionError("x".to_string())).into();
    assert_eq!(none, None);
}

// ── events ────────────────────────────────────────────────────────────────────

fn emit_with(bus: &EventBus, event: &str, state: &mut TestState, lua: impl Fn(&mut TestState)) {
    for d in bus.emit_plan(event) {
        match d {
            Dispatch::Lua(_) => lua(state),
            Dispatch::Rust(_) => {}
        }
    }
}

#[test]
fn events_on_and_emit_rust_to_lua() {
    let mut ids = HandlerIdCounter::new();
    let mut bus = EventBus::new();
    let mut state = TestState::default();
    // events.on("creature_died", function(name) test.record("died", name) end)
    bus.on_lua("creature_died", ids.next_handler_id(), 0x1000);
    emit_with(&bus, "creature_died", &mut state, |s| {
        s.record("died".to_string(), "Llanowar Elves".to_string())
    });
    assert_eq!(state.calls.get("died").unwrap(), &vec!["Llanowar Elves".to_string()]);
}

#[test]
fn events_off_by_function_reference_removes_handler() {
    let mut ids = HandlerIdCounter::new();
    let mut bus = EventBus::new();
    let mut state = TestState::default();
    let handler = 0x2000usize;
    let id = ids.next_handler_id();
    bus.on_lua("tick", id, handler);
    emit_with(&bus, "tick", &mut state, |s| s.increment()); // counter → 1
    assert_eq!(bus.off_lua("tick", handler), Some(id));
    emit_with(&bus, "tick", &mut state, |s| s.increment()); // unsubscribed → stays 1
    assert_eq!(state.counter, 1);
    assert_eq!(bus.off_lua("tick", handler), None);
}

#[test]
fn events_lua_to_lua() {
    let mut ids = HandlerIdCounter::new();
    let mut bus = EventBus::new();
    let mut state = TestState::default();
    bus.on_lua("ping", ids.next_handler_id(), 0x3000);
    emit_with(&bus, "ping", &mut state, |s| s.increment());
    emit_with(&bus, "ping", &mut state, |s| s.increment());
    assert_eq!(state.counter, 2);
}

#[test]
fn rust_handler_off_by_handler_id() {
    let mut ids = HandlerIdCounter::new();
    let mut bus = EventBus::new();
    let mut fired = 0u32;
    let id = ids.next_handler_id();
    bus.on("zone_changed", id);
    for d in bus.emit_plan("zone_changed") {
        if d == Dispatch::Rust(id) {
            fired += 1; // fired → 1
        }
    }
    bus.off("zone_changed", id);
    for d in bus.emit_plan("zone_changed") {
        if d == Dispatch::Rust(id) {
            fired += 1;
        }
    }
    assert_eq!(fired, 1);
}

// ── registry and cache of the manager ─────────────────────────────────────────

fn entry(id: &str, path: &str) -> ScriptEntry {
    ScriptEntry { id: id.to_string(), path: path.to_string() }
}

#[test]
fn scripts_load_once_and_reload_after_invalidate() {
    let mut m = manager();
    let released = m.register_scripts(&vec![entry("cards.a", "pkg/a.luau")]);
    assert!(released.is_empty());
    assert_eq!(m.registry_len(), 1);
    assert_eq!(m.version_of("cards.a"), Some(0));
    match m.locate_module("cards.a") {
        ModuleSource::Load(p) => assert_eq!(p, "pkg/a.luau"),
        other => panic!("unexpected {other:?}"),
    }
    assert!(m.store_module("cards.a", 7).is_empty());
    assert!(m.is_cached("cards.a"));
    assert_eq!(m.cache_len(), 1);
    assert!(matches!(m.locate_module("cards.a"), ModuleSource::Cached(7)));
    assert_eq!(m.invalidate("cards.a"), Some(7));
    assert_eq!(m.version_of("cards.a"), Some(1));
    assert!(!m.is_cached("cards.a"));
    assert!(matches!(m.locate_module("cards.a"), ModuleSource::Load(_)));
    assert_eq!(m.invalidate("cards.a"), None);
}

#[test]
fn unknown_script_is_missing() {
    let mut m = manager();
    match m.locate_module("cards.nope") {
        ModuleSource::Missing(msg) => assert_eq!(msg, "script 'cards.nope' not found in registry"),
        other => panic!("unexpected {other:?}"),
    }
    assert_eq!(m.invalidate("cards.nope"), None);
    assert_eq!(m.version_of("cards.nope"), None);
}

#[test]
fn registering_again_wins_and_leaves_the_cache() {
    let mut m = manager();
    m.register_scripts(&vec![entry("cards.a", "one/a.luau"), entry("cards.b", "one/b.luau")]);
    m.store_module("cards.a", 1);
    m.store_module("cards.b", 2);
    let released = m.register_scripts(&vec![entry("cards.a", "two/a.luau")]);
    assert_eq!(released, vec![1]);
    assert!(!m.is_cached("cards.a"));
    assert!(m.is_cached("cards.b"));
    assert_eq!(m.registry_len(), 2);
    assert_eq!(m.version_of("cards.a"), Some(1));
    assert_eq!(m.version_of("cards.b"), Some(0));
    match m.locate_module("cards.a") {
        ModuleSource::Load(p) => assert_eq!(p, "two/a.luau"),
        other => panic!("unexpected {other:?}"),
    }
}

#[test]
fn handler_ids_are_distinct() {
    let mut ids = HandlerIdCounter::new();
    let a = ids.next_handler_id();
    let b = ids.next_handler_id();
    assert_ne!(a, b);
    assert_eq!(a.raw(), 0);
    assert_eq!(b.raw(), 1);
    assert_eq!(HandlerId::new(5).raw(), 5);
}
