use lua_script_manager::{
    debug_text, expect_bool, expect_float, expect_int, expect_string, expect_table, nested, take_list,
    take_optional, take_required, FromLuaTable, LuaTableValue, TableMap,
};

// ─── Helper ──────────────────────────────────────────────────────────────────

fn map(pairs: Vec<(&str, LuaTableValue)>) -> TableMap {
    let mut m = TableMap::new();
    for (k, v) in pairs {
        m.insert(k.to_string(), v);
    }
    m
}

fn float(f: f64) -> LuaTableValue {
    LuaTableValue::Float(f.to_bits())
}

// ─── Structs under test, each reading its fields in declaration order ────────

#[derive(Debug, PartialEq)]
pub struct CardDefinition {
    cost: String,
    power: Option<i64>,
    toughness: Option<i64>,
    keywords: Vec<String>,
}

impl FromLuaTable for CardDefinition {
    fn from_lua_table(mut map: TableMap) -> Result<Self, String> {
        let cost = expect_string("cost", false, take_required(&mut map, "cost")?)?;
        let power = match take_optional(&mut map, "power") {
            None => None,
            Some(v) => Some(expect_int("power", false, v)?),
        };
        let toughness = match take_optional(&mut map, "toughness") {
            None => None,
            Some(v) => Some(expect_int("toughness", false, v)?),
        };
        let mut keywords = Vec::new();
        for item in take_list(&mut map, "keywords")? {
            keywords.push(expect_string("keywords", true, item)?);
        }
        Ok(Self { cost, power, toughness, keywords })
    }
}

#[derive(Debug, PartialEq)]
pub struct AllPrimitives {
    s: String,
    i: i64,
    f: f64,
    b: bool,
}

impl FromLuaTable for AllPrimitives {
    fn from_lua_table(mut map: TableMap) -> Result<Self, String> {
        let s = expect_string("s", false, take_required(&mut map, "s")?)?;
        let i = expect_int("i", false, take_required(&mut map, "i")?)?;
        let f = f64::from_bits(expect_float("f", false, take_required(&mut map, "f")?)?);
        let b = expect_bool("b", false, take_required(&mut map, "b")?)?;
        Ok(Self { s, i, f, b })
    }
}

#[derive(Debug, PartialEq)]
pub struct WithNested {
    name: String,
    stats: AllPrimitives,
}

impl FromLuaTable for WithNested {
    fn from_lua_table(mut map: TableMap) -> Result<Self, String> {
        let name = expect_string("name", false, take_required(&mut map, "name")?)?;
        let stats = nested(
            "stats",
            false,
            expect_table("stats", false, take_required(&mut map, "stats")?)?,
        )?;
        Ok(Self { name, stats })
    }
}

#[derive(Debug, PartialEq)]
pub struct WithOptionalNested {
    name: String,
    extra: Option<AllPrimitives>,
}

impl FromLuaTable for WithOptionalNested {
    fn from_lua_table(mut map: TableMap) -> Result<Self, String> {
        let name = expect_string("name", false, take_required(&mut map, "name")?)?;
        let extra = match take_optional(&mut map, "extra") {
            None => None,
            Some(v) => Some(nested("extra", false, expect_table("extra", false, v)?)?),
        };
        Ok(Self { name, extra })
    }
}

#[derive(Debug, PartialEq)]
pub struct WithVecNested {
    label: String,
    items: Vec<AllPrimitives>,
}

impl FromLuaTable for WithVecNested {
    fn from_lua_table(mut map: TableMap) -> Result<Self, String> {
        let label = expect_string("label", false, take_required(&mut map, "label")?)?;
        let mut items = Vec::new();
        for item in take_list(&mut map, "items")? {
            items.push(nested("items", true, expect_table("items", true, item)?)?);
        }
        Ok(Self { label, items })
    }
}

// ─── Tests ───────────────────────────────────────────────────────────────────

#[test]
fn card_definition_full() {
    let m = map(vec![
        ("cost", LuaTableValue::String("G".into())),
        ("power", LuaTableValue::Int(1)),
        ("toughness", LuaTableValue::Int(1)),
        (
            "keywords",
            LuaTableValue::List(vec![
                LuaTableValue::String("vigilance".into()),
                LuaTableValue::String("flying".into()),
            ]),
        ),
    ]);
    let card = CardDefinition::from_lua_table(m).unwrap();
    assert_eq!(card.cost, "G");
    assert_eq!(card.power, Some(1));
    assert_eq!(card.toughness, Some(1));
    assert_eq!(card.keywords, vec!["vigilance", "flying"]);
}

#[test]
fn card_definition_optional_fields_absent() {
    let m = map(vec![
        ("cost", LuaTableValue::String("1G".into())),
        ("keywords", LuaTableValue::List(vec![])),
    ]);
    let card = CardDefinition::from_lua_table(m).unwrap();
    assert_eq!(card.power, None);
    assert_eq!(card.toughness, None);
    assert_eq!(card.keywords, Vec::<String>::new());
}

#[test]
fn missing_required_field_errors() {
    // 'cost' is required but absent
    let m = map(vec![("keywords", LuaTableValue::List(vec![]))]);
    let err = CardDefinition::from_lua_table(m).unwrap_err();
    assert!(err.contains("cost"), "error should mention the missing field: {err}");
}

#[test]
fn wrong_variant_for_required_field_errors() {
    let m = map(vec![
        ("cost", LuaTableValue::Int(42)), // should be String
        ("keywords", LuaTableValue::List(vec![])),
    ]);
    let err = CardDefinition::from_lua_table(m).unwrap_err();
    assert!(err.contains("cost"), "error should mention the offending field: {err}");
}

#[test]
fn wrong_variant_for_optional_field_errors() {
    let m = map(vec![
        ("cost", LuaTableValue::String("G".into())),
        ("power", LuaTableValue::String("nope".into())), // should be Int
        ("keywords", LuaTableValue::List(vec![])),
    ]);
    let err = CardDefinition::from_lua_table(m).unwrap_err();
    assert!(err.contains("power"), "error should mention the offending field: {err}");
}

#[test]
fn all_primitives_round_trip() {
    let m = map(vec![
        ("s", LuaTableValue::String("hello".into())),
        ("i", LuaTableValue::Int(-7)),
        ("f", float(3.14)),
        ("b", LuaTableValue::Bool(true)),
    ]);
    let v = AllPrimitives::from_lua_table(m).unwrap();
    assert_eq!(v.s, "hello");
    assert_eq!(v.i, -7);
    assert!((v.f - 3.14).abs() < 1e-9);
    assert!(v.b);
}

fn primitives(s: &str, i: i64, f: f64, b: bool) -> TableMap {
    map(vec![
        ("s", LuaTableValue::String(s.into())),
        ("i", LuaTableValue::Int(i)),
        ("f", float(f)),
        ("b", LuaTableValue::Bool(b)),
    ])
}

#[test]
fn nested_struct_required() {
    let m = map(vec![
        ("name", LuaTableValue::String("Card".into())),
        ("stats", LuaTableValue::Table(primitives("x", 0, 0.0, false))),
    ]);
    let v = WithNested::from_lua_table(m).unwrap();
    assert_eq!(v.name, "Card");
    assert_eq!(v.stats.i, 0);
}

#[test]
fn nested_struct_optional_present() {
    let m = map(vec![
        ("name", LuaTableValue::String("Thing".into())),
        ("extra", LuaTableValue::Table(primitives("y", 99, 1.0, true))),
    ]);
    let v = WithOptionalNested::from_lua_table(m).unwrap();
    assert_eq!(v.extra.unwrap().i, 99);
}

#[test]
fn nested_struct_optional_absent() {
    let m = map(vec![("name", LuaTableValue::String("Thing".into()))]);
    let v = WithOptionalNested::from_lua_table(m).unwrap();
    assert!(v.extra.is_none());
}

#[test]
fn vec_of_nested_structs() {
    let make_item = |i: i64| LuaTableValue::Table(primitives("", i, 0.0, false));
    let m = map(vec![
        ("label", LuaTableValue::String("list".into())),
        ("items", LuaTableValue::List(vec![make_item(1), make_item(2), make_item(3)])),
    ]);
    let v = WithVecNested::from_lua_table(m).unwrap();
    let ints: Vec<i64> = v.items.iter().map(|x| x.i).collect();
    assert_eq!(ints, vec![1, 2, 3]);
}

#[test]
fn vec_wrong_element_variant_errors() {
    let m = map(vec![
        ("cost", LuaTableValue::String("G".into())),
        (
            "keywords",
            LuaTableValue::List(vec![
                LuaTableValue::Int(42), // should be String
            ]),
        ),
    ]);
    let err = CardDefinition::from_lua_table(m).unwrap_err();
    assert!(err.contains("keywords"), "error should mention the offending field: {err}");
}

// ─── Exact messages of the field helpers ─────────────────────────────────────

#[test]
fn missing_field_message_is_exact() {
    let m = map(vec![("keywords", LuaTableValue::List(vec![]))]);
    let err = CardDefinition::from_lua_table(m).unwrap_err();
    assert_eq!(err, "field `cost` is missing");
}

#[test]
fn mismatch_messages_show_the_value() {
    let m = map(vec![("cost", LuaTableValue::Int(42)), ("keywords", LuaTableValue::List(vec![]))]);
    assert_eq!(
        CardDefinition::from_lua_table(m).unwrap_err(),
        "field `cost`: expected String(v), got Int(42)"
    );
    let m = map(vec![
        ("cost", LuaTableValue::String("G".into())),
        ("keywords", LuaTableValue::List(vec![LuaTableValue::Bool(true)])),
    ]);
    assert_eq!(
        CardDefinition::from_lua_table(m).unwrap_err(),
        "field `keywords`: list element: expected String(v), got Bool(true)"
    );
    let m = map(vec![
        ("cost", LuaTableValue::String("G".into())),
        ("keywords", LuaTableValue::String("flying".into())),
    ]);
    assert_eq!(
        CardDefinition::from_lua_table(m).unwrap_err(),
        "field `keywords`: expected List, got String(\"flying\")"
    );
}

#[test]
fn nested_errors_are_placed_under_the_field() {
    let m = map(vec![
        ("name", LuaTableValue::String("Card".into())),
        ("stats", LuaTableValue::Int(3)),
    ]);
    assert_eq!(
        WithNested::from_lua_table(m).unwrap_err(),
        "field `stats`: expected Map for nested struct, got Int(3)"
    );
    let mut inner = primitives("x", 0, 0.0, false);
    inner.remove("i");
    let m = map(vec![
        ("name", LuaTableValue::String("Card".into())),
        ("stats", LuaTableValue::Table(inner)),
    ]);
    assert_eq!(
        WithNested::from_lua_table(m).unwrap_err(),
        "field `stats`: field `i` is missing"
    );
    let m = map(vec![
        ("label", LuaTableValue::String("list".into())),
        ("items", LuaTableValue::List(vec![LuaTableValue::Float(0)])),
    ]);
    assert_eq!(
        WithVecNested::from_lua_table(m).unwrap_err(),
        "field `items`: list element: expected Map, got Float"
    );
    let mut bad = primitives("x", 0, 0.0, false);
    bad.insert("b".to_string(), LuaTableValue::Int(1));
    let m = map(vec![
        ("label", LuaTableValue::String("list".into())),
        ("items", LuaTableValue::List(vec![LuaTableValue::Table(bad)])),
    ]);
    assert_eq!(
        WithVecNested::from_lua_table(m).unwrap_err(),
        "field `items`: list element: field `b`: expected Bool(v), got Int(1)"
    );
}

#[test]
fn taking_a_field_removes_it() {
    let mut m = map(vec![("a", LuaTableValue::Int(1)), ("b", LuaTableValue::Bool(false))]);
    assert!(matches!(take_required(&mut m, "a"), Ok(LuaTableValue::Int(1))));
    assert!(!m.contains_key("a"));
    assert_eq!(m.len(), 1);
    assert!(take_optional(&mut m, "a").is_none());
    assert!(matches!(take_optional(&mut m, "b"), Some(LuaTableValue::Bool(false))));
    assert!(m.is_empty());
    assert_eq!(take_list(&mut m, "c").unwrap_err(), "field `c` is missing");
}

#[test]
fn values_read_in_their_debug_form() {
    assert_eq!(debug_text(&LuaTableValue::String("a\"b".into())), "String(\"a\\\"b\")");
    assert_eq!(debug_text(&LuaTableValue::Int(-7)), "Int(-7)");
    assert_eq!(debug_text(&LuaTableValue::Bool(false)), "Bool(false)");
    assert_eq!(
        debug_text(&LuaTableValue::List(vec![LuaTableValue::Int(1), LuaTableValue::String("x".into())])),
        "List([Int(1), String(\"x\")])"
    );
    assert_eq!(debug_text(&LuaTableValue::List(vec![])), "List([])");
    let m = map(vec![("k", LuaTableValue::Int(1))]);
    assert_eq!(debug_text(&LuaTableValue::Table(m)), "Map({\"k\": Int(1)})");
    assert_eq!(debug_text(&LuaTableValue::Table(TableMap::new())), "Map({})");
}
