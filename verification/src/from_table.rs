//! Conversion of a Luau sub-table into a typed engine struct, field by field.
//!
//! A struct reads each of its fields with one of four shapes: a required
//! primitive, an optional primitive or nested struct (`Option<T>`), a list
//! (`Vec<T>`), or a required nested struct. The functions here are those
//! shapes; an implementation of `FromLuaTable` is a sequence of calls to them.
use vstd::prelude::*;

use crate::lua_table::{debug_text, value_debug, LuaTableValue, TableMap};

verus! {

/// Conversion from the contents of one Luau sub-table to a typed struct.
///
/// Implementors take the sub-table's keys out of `map` and return
/// `Err` with a readable message on the first field that fails.
pub trait FromLuaTable: Sized {
    fn from_lua_table(map: TableMap) -> Result<Self, String>;
}

/// "field `KEY` is missing"
pub open spec fn missing_message(key: Seq<char>) -> Seq<char> {
    "field `"@ + key + "` is missing"@
}

/// The head of every message about a field: "field `KEY`: ", followed by
/// "list element: " when the message is about one element of a list.
pub open spec fn field_prefix(key: Seq<char>, element: bool) -> Seq<char> {
    if element {
        "field `"@ + key + "`: "@ + "list element: "@
    } else {
        "field `"@ + key + "`: "@
    }
}

/// "field `KEY`: [list element: ]expected EXPECTED, got VALUE", the value
/// in its `Debug` form (`value_debug`).
pub open spec fn mismatch_message(
    key: Seq<char>,
    element: bool,
    expected: Seq<char>,
    got: LuaTableValue,
) -> Seq<char> {
    field_prefix(key, element) + "expected "@ + expected + ", got "@ + value_debug(got)
}

/// What a nested struct's field is expected to be.
pub open spec fn table_expectation(element: bool) -> Seq<char> {
    if element {
        "Map"@
    } else {
        "Map for nested struct"@
    }
}

fn prefix_text(key: &str, element: bool) -> (r: String)
    ensures
        r@ == field_prefix(key@, element),
{
    let mut s = String::from_str("field `");
    s.append(key);
    s.append("`: ");
    if element {
        s.append("list element: ");
    }
    s
}

fn mismatch(key: &str, element: bool, expected: &str, got: &LuaTableValue) -> (r: String)
    ensures
        r@ == mismatch_message(key@, element, expected@, *got),
{
    let mut s = prefix_text(key, element);
    s.append("expected ");
    s.append(expected);
    s.append(", got ");
    let d = debug_text(got);
    s.append(d.as_str());
    s
}

/// Takes a required field out of `map`: its value, or the "is missing" error.
pub fn take_required(map: &mut TableMap, key: &str) -> (r: Result<LuaTableValue, String>)
    ensures
        final(map)@ == old(map)@.remove(key@),
        match r {
            Ok(v) => old(map)@.contains_key(key@) && v == old(map)@[key@],
            Err(e) => !old(map)@.contains_key(key@) && e@ == missing_message(key@),
        },
{
    match map.remove(key) {
        Some(v) => Ok(v),
        None => {
            let mut s = String::from_str("field `");
            s.append(key);
            s.append("` is missing");
            Err(s)
        },
    }
}

/// Takes an optional field out of `map`: an absent key is `None`.
pub fn take_optional(map: &mut TableMap, key: &str) -> (r: Option<LuaTableValue>)
    ensures
        final(map)@ == old(map)@.remove(key@),
        match r {
            Some(v) => old(map)@.contains_key(key@) && v == old(map)@[key@],
            None => !old(map)@.contains_key(key@),
        },
{
    map.remove(key)
}

/// Takes a list field out of `map`: its items, the "is missing" error, or
/// a mismatch when the value is not a list.
pub fn take_list(map: &mut TableMap, key: &str) -> (r: Result<Vec<LuaTableValue>, String>)
    ensures
        final(map)@ == old(map)@.remove(key@),
        !old(map)@.contains_key(key@) ==> (r matches Err(e) && e@ == missing_message(key@)),
        old(map)@.contains_key(key@) ==> match old(map)@[key@] {
            LuaTableValue::List(items) => r == Ok::<Vec<LuaTableValue>, String>(items),
            other => r matches Err(e) && e@ == mismatch_message(key@, false, "List"@, other),
        },
{
    match take_required(map, key) {
        Ok(LuaTableValue::List(items)) => Ok(items),
        Ok(other) => Err(mismatch(key, false, "List", &other)),
        Err(e) => Err(e),
    }
}

/// Reads a `String` out of a field's value (`element`: out of one element
/// of the field's list).
pub fn expect_string(key: &str, element: bool, v: LuaTableValue) -> (r: Result<String, String>)
    ensures
        match v {
            LuaTableValue::String(s) => r == Ok::<String, String>(s),
            other => r matches Err(e) && e@ == mismatch_message(key@, element, "String(v)"@, other),
        },
{
    match v {
        LuaTableValue::String(s) => Ok(s),
        other => Err(mismatch(key, element, "String(v)", &other)),
    }
}

/// Reads an `i64` out of a field's value (`element`: out of one element of
/// the field's list).
pub fn expect_int(key: &str, element: bool, v: LuaTableValue) -> (r: Result<i64, String>)
    ensures
        match v {
            LuaTableValue::Int(i) => r == Ok::<i64, String>(i),
            other => r matches Err(e) && e@ == mismatch_message(key@, element, "Int(v)"@, other),
        },
{
    match v {
        LuaTableValue::Int(i) => Ok(i),
        other => Err(mismatch(key, element, "Int(v)", &other)),
    }
}

/// Reads a number, as its `f64` bit pattern, out of a field's value
/// (`element`: out of one element of the field's list).
pub fn expect_float(key: &str, element: bool, v: LuaTableValue) -> (r: Result<u64, String>)
    ensures
        match v {
            LuaTableValue::Float(bits) => r == Ok::<u64, String>(bits),
            other => r matches Err(e) && e@ == mismatch_message(key@, element, "Float(v)"@, other),
        },
{
    match v {
        LuaTableValue::Float(bits) => Ok(bits),
        other => Err(mismatch(key, element, "Float(v)", &other)),
    }
}

/// Reads a `bool` out of a field's value (`element`: out of one element of
/// the field's list).
pub fn expect_bool(key: &str, element: bool, v: LuaTableValue) -> (r: Result<bool, String>)
    ensures
        match v {
            LuaTableValue::Bool(b) => r == Ok::<bool, String>(b),
            other => r matches Err(e) && e@ == mismatch_message(key@, element, "Bool(v)"@, other),
        },
{
    match v {
        LuaTableValue::Bool(b) => Ok(b),
        other => Err(mismatch(key, element, "Bool(v)", &other)),
    }
}

/// Reads the sub-table of a nested struct out of a field's value
/// (`element`: out of one element of the field's list).
pub fn expect_table(key: &str, element: bool, v: LuaTableValue) -> (r: Result<TableMap, String>)
    ensures
        match v {
            LuaTableValue::Table(t) => r == Ok::<TableMap, String>(t),
            other => r matches Err(e) && e@ == mismatch_message(
                key@,
                element,
                table_expectation(element),
                other,
            ),
        },
{
    match v {
        LuaTableValue::Table(t) => Ok(t),
        other => {
            if element {
                Err(mismatch(key, element, "Map", &other))
            } else {
                Err(mismatch(key, element, "Map for nested struct", &other))
            }
        },
    }
}

/// Places the error of a nested struct's conversion under its field
/// (`element`: under one element of the field's list).
pub fn nested_error(key: &str, element: bool, e: String) -> (r: String)
    ensures
        r@ == field_prefix(key@, element) + e@,
{
    let mut s = prefix_text(key, element);
    s.append(e.as_str());
    s
}

/// Converts the sub-table of a nested struct with `T::from_lua_table`,
/// placing its error under the field (`element`: under one element of the
/// field's list): the struct that call returns, or its error behind the
/// field's prefix.
pub fn nested<T: FromLuaTable>(key: &str, element: bool, inner: TableMap) -> (r: Result<T, String>)
    ensures
        exists|converted: Result<T, String>|
            call_ensures(T::from_lua_table, (inner,), converted) && match converted {
                Ok(v) => r == Ok::<T, String>(v),
                Err(e) => r matches Err(m) && m@ == field_prefix(key@, element) + e@,
            },
{
    let convert = T::from_lua_table;
    let converted = convert(inner);
    match converted {
        Ok(v) => Ok(v),
        Err(e) => Err(nested_error(key, element, e)),
    }
}

} // verus!
