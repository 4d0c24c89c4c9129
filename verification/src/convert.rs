//! Conversion of Luau data, as read out of the VM, into `LuaTableValue`s.
//!
//! The host reads a Luau value into a `ScriptValue`: a plain tree that keeps
//! every table's `(key, value)` pairs in the order the VM walked them. The
//! functions here decide what each value becomes: a table whose keys are
//! exactly the integers `1..=n` becomes a `List` in key order; any other table
//! becomes a `Table` keyed by the keys' text.
use vstd::prelude::*;

use crate::decimal::{decimal_text, int_text, lemma_int_text_injective};
use crate::lua_table::{LuaTableValue, TableMap};

verus! {

/// A Luau value as the host read it out of the VM.
#[derive(Debug)]
pub enum ScriptValue {
    Nil,
    Boolean(bool),
    Integer(i64),
    /// A Luau number, as the IEEE-754 bit pattern of its `f64`.
    Number(u64),
    /// A Luau string: its text, or the message of the error that reading it
    /// as UTF-8 gave.
    String(Result<String, String>),
    Table(LuaTableSnapshot),
    /// Any other Luau value (function, userdata, thread, ...), by its type
    /// name.
    Other(String),
}

/// The `(key, value)` pairs of a Luau table, in the order the VM walked them.
///
/// As in any Luau table, no two integer keys are equal and no two string
/// keys have the same text.
#[derive(Debug)]
pub struct LuaTableSnapshot {
    pairs: Vec<(ScriptValue, ScriptValue)>,
}

/// Whether two keys are the same integer, or strings of the same text.
pub open spec fn same_key(a: ScriptValue, b: ScriptValue) -> bool {
    ||| (a is Integer && b is Integer && a->Integer_0 == b->Integer_0)
    ||| (a is String && b is String && a->String_0 is Ok && b->String_0 is Ok
        && a->String_0->Ok_0@ == b->String_0->Ok_0@)
}

/// No two pairs have the same key.
pub open spec fn keys_unique(pairs: Seq<(ScriptValue, ScriptValue)>) -> bool {
    forall|i: int, j: int| 0 <= i < j < pairs.len() ==> !same_key(pairs[i].0, pairs[j].0)
}

impl LuaTableSnapshot {
    #[verifier::type_invariant]
    spec fn well_keyed(self) -> bool {
        keys_unique(self.pairs@)
    }

    /// The table's pairs.
    pub closed spec fn pairs(self) -> Seq<(ScriptValue, ScriptValue)> {
        self.pairs@
    }

    /// The snapshot of a table with these pairs; `None` when two pairs have
    /// the same key, which no Luau table has.
    pub fn new(pairs: Vec<(ScriptValue, ScriptValue)>) -> (r: Option<LuaTableSnapshot>)
        ensures
            r is Some <==> keys_unique(pairs@),
            r matches Some(t) ==> t.pairs() == pairs@,
    {
        let n = pairs.len();
        let mut i: usize = 0;
        while i < n
            invariant
                n == pairs@.len(),
                i <= n,
                forall|a: int, b: int| 0 <= a < i && a < b < n ==> !same_key(pairs@[a].0, pairs@[b].0),
            decreases n - i,
        {
            let mut j: usize = i + 1;
            while j < n
                invariant
                    n == pairs@.len(),
                    i < n,
                    i + 1 <= j <= n,
                    forall|a: int, b: int| 0 <= a < i && a < b < n ==> !same_key(pairs@[a].0, pairs@[b].0),
                    forall|b: int| i < b < j ==> !same_key(pairs@[i as int].0, pairs@[b].0),
                decreases n - j,
            {
                if key_equal(&pairs[i].0, &pairs[j].0) {
                    return None;
                }
                j = j + 1;
            }
            i = i + 1;
        }
        Some(LuaTableSnapshot { pairs })
    }

    /// The number of pairs.
    pub fn len(&self) -> (r: usize)
        ensures
            r == self.pairs().len(),
    {
        self.pairs.len()
    }
}

fn key_equal(a: &ScriptValue, b: &ScriptValue) -> (r: bool)
    ensures
        r == same_key(*a, *b),
{
    match (a, b) {
        (ScriptValue::Integer(x), ScriptValue::Integer(y)) => *x == *y,
        (ScriptValue::String(Ok(x)), ScriptValue::String(Ok(y))) => *x == *y,
        _ => false,
    }
}

/// The name of a value's Luau type.
pub open spec fn lua_type_name(v: ScriptValue) -> Seq<char> {
    match v {
        ScriptValue::Nil => "nil"@,
        ScriptValue::Boolean(_) => "boolean"@,
        ScriptValue::Integer(_) => "integer"@,
        ScriptValue::Number(_) => "number"@,
        ScriptValue::String(_) => "string"@,
        ScriptValue::Table(_) => "table"@,
        ScriptValue::Other(name) => name@,
    }
}

/// "cannot convert Nil to LuaTableValue"
pub open spec fn nil_message() -> Seq<char> {
    "cannot convert Nil to LuaTableValue"@
}

/// "unsupported Luau type 'NAME' in LuaTableValue conversion"
pub open spec fn unsupported_type_message(name: Seq<char>) -> Seq<char> {
    "unsupported Luau type '"@ + name + "' in LuaTableValue conversion"@
}

/// "unsupported table key type 'NAME' in LuaTableValue conversion"
pub open spec fn unsupported_key_message(name: Seq<char>) -> Seq<char> {
    "unsupported table key type '"@ + name + "' in LuaTableValue conversion"@
}

/// "sub-table 'NAME' is not a table (got TYPE)"
pub open spec fn not_a_table_message(name: Seq<char>, got: Seq<char>) -> Seq<char> {
    "sub-table '"@ + name + "' is not a table (got "@ + got + ")"@
}

/// A key that a converted table can have: an integer, or a readable string.
pub open spec fn key_ok(k: ScriptValue) -> bool {
    k is Integer || (k is String && k->String_0 is Ok)
}

/// The text a key has in a converted table: a string's own text, an
/// integer's decimal text.
pub open spec fn key_text(k: ScriptValue) -> Seq<char> {
    match k {
        ScriptValue::Integer(i) => int_text(i as int),
        ScriptValue::String(Ok(s)) => s@,
        _ => Seq::empty(),
    }
}

/// The keys of a table are exactly the integers `1..=n`, `n` being its
/// number of pairs: the table is a list.
pub open spec fn list_shape(pairs: Seq<(ScriptValue, ScriptValue)>) -> bool {
    &&& forall|i: int|
        0 <= i < pairs.len() ==> (#[trigger] pairs[i]).0 is Integer && 1 <= pairs[i].0->Integer_0
            <= pairs.len()
    &&& forall|i: int, j: int|
        0 <= i < j < pairs.len() ==> pairs[i].0->Integer_0 != pairs[j].0->Integer_0
}

/// The texts of a table's keys.
pub open spec fn key_texts(pairs: Seq<(ScriptValue, ScriptValue)>) -> Set<Seq<char>> {
    Set::new(|t: Seq<char>| exists|i: int| 0 <= i < pairs.len() && key_text(pairs[i].0) == t)
}

/// Pair `i` holds the value that its key's text has in the converted table:
/// string keys are entered first and integer keys after them, a later entry
/// replacing an earlier one with the same text.
pub open spec fn wins(pairs: Seq<(ScriptValue, ScriptValue)>, i: int) -> bool {
    match pairs[i].0 {
        ScriptValue::Integer(k) => forall|j: int|
            i < j < pairs.len() ==> !(pairs[j].0 is Integer && pairs[j].0->Integer_0 == k),
        ScriptValue::String(Ok(s)) => {
            &&& forall|j: int|
                0 <= j < pairs.len() ==> !(pairs[j].0 is Integer && int_text(
                    pairs[j].0->Integer_0 as int,
                ) == s@)
            &&& forall|j: int|
                i < j < pairs.len() ==> !(pairs[j].0 is String && pairs[j].0->String_0 is Ok
                    && pairs[j].0->String_0->Ok_0@ == s@)
        },
        _ => false,
    }
}

/// Whether a value can be converted: no nil, no value of an unsupported
/// type, no unreadable string, and in every table only integer and readable
/// string keys.
pub open spec fn convertible(v: ScriptValue) -> bool
    decreases v,
{
    match v {
        ScriptValue::Nil => false,
        ScriptValue::Other(_) => false,
        ScriptValue::String(r) => r is Ok,
        ScriptValue::Boolean(_) => true,
        ScriptValue::Integer(_) => true,
        ScriptValue::Number(_) => true,
        ScriptValue::Table(t) => pairs_convertible(t.pairs()),
    }
}

/// Every pair has an integer or readable string key and a convertible value.
pub open spec fn pairs_convertible(s: Seq<(ScriptValue, ScriptValue)>) -> bool
    decreases s,
{
    if s.len() == 0 {
        true
    } else {
        pairs_convertible(s.drop_last()) && key_ok(s.last().0) && convertible(s.last().1)
    }
}

/// `out` is what a convertible value converts to.
///
/// A boolean, integer, number or string keeps its value. A table whose keys
/// are exactly `1..=n` becomes the `List` whose item `k - 1` is the
/// conversion of the value under key `k`. Any other table becomes the
/// `Table` whose keys are the texts of the table's keys, each holding the
/// conversion of the value of the pair that wins it.
pub open spec fn converts(v: ScriptValue, out: LuaTableValue) -> bool
    decreases v,
{
    match v {
        ScriptValue::Boolean(b) => out == LuaTableValue::Bool(b),
        ScriptValue::Integer(i) => out == LuaTableValue::Int(i),
        ScriptValue::Number(bits) => out == LuaTableValue::Float(bits),
        ScriptValue::String(r) => r is Ok && out == LuaTableValue::String(r->Ok_0),
        ScriptValue::Table(t) => {
            &&& pairs_convertible(t.pairs())
            &&& if list_shape(t.pairs()) {
                &&& out is List
                &&& out->List_0@.len() == t.pairs().len()
                &&& items_converted(t.pairs(), out->List_0@)
            } else {
                &&& out is Table
                &&& out->Table_0@.dom() == key_texts(t.pairs())
                &&& entries_converted(t.pairs(), t.pairs(), out->Table_0@)
            }
        },
        _ => false,
    }
}

/// The value of each pair converts to the list item of its integer key.
pub open spec fn items_converted(
    s: Seq<(ScriptValue, ScriptValue)>,
    items: Seq<LuaTableValue>,
) -> bool
    decreases s,
{
    if s.len() == 0 {
        true
    } else {
        items_converted(s.drop_last(), items) && converts(
            s.last().1,
            items[s.last().0->Integer_0 - 1],
        )
    }
}

/// The value of each pair of `s` (a prefix of `all`) that wins its key's text
/// in `all` converts to what `m` holds under that text.
pub open spec fn entries_converted(
    s: Seq<(ScriptValue, ScriptValue)>,
    all: Seq<(ScriptValue, ScriptValue)>,
    m: Map<Seq<char>, LuaTableValue>,
) -> bool
    decreases s,
{
    if s.len() == 0 {
        true
    } else {
        entries_converted(s.drop_last(), all, m) && (wins(all, s.len() - 1) ==> converts(
            s.last().1,
            m[key_text(s.last().0)],
        ))
    }
}

/// `m` is what a convertible table converts to when it is read as a
/// sub-table: the texts of its keys, each holding the conversion of the value
/// of the pair that wins it. A list-shaped table is read with its keys
/// `"1"` .. `"n"`.
pub open spec fn converts_to_map(t: LuaTableSnapshot, m: Map<Seq<char>, LuaTableValue>) -> bool {
    &&& pairs_convertible(t.pairs())
    &&& m.dom() == key_texts(t.pairs())
    &&& entries_converted(t.pairs(), t.pairs(), m)
}

proof fn lemma_pairs_convertible_elim(s: Seq<(ScriptValue, ScriptValue)>, i: int)
    requires
        pairs_convertible(s),
        0 <= i < s.len(),
    ensures
        key_ok(s[i].0),
        convertible(s[i].1),
    decreases s.len(),
{
    if i < s.len() - 1 {
        lemma_pairs_convertible_elim(s.drop_last(), i);
        assert(s.drop_last()[i] == s[i]);
    }
}

proof fn lemma_pairs_convertible_intro(s: Seq<(ScriptValue, ScriptValue)>)
    requires
        forall|i: int| 0 <= i < s.len() ==> #[trigger] convertible(s[i].1) && key_ok(s[i].0),
    ensures
        pairs_convertible(s),
    decreases s.len(),
{
    if s.len() > 0 {
        let p = s.drop_last();
        assert forall|i: int| 0 <= i < p.len() implies #[trigger] convertible(p[i].1) && key_ok(p[i].0) by {
            assert(p[i] == s[i]);
            assert(convertible(s[i].1));
        }
        lemma_pairs_convertible_intro(p);
        assert(convertible(s[s.len() - 1].1));
    }
}

proof fn lemma_pairs_convertible(s: Seq<(ScriptValue, ScriptValue)>)
    ensures
        pairs_convertible(s) == (forall|i: int|
            0 <= i < s.len() ==> #[trigger] convertible(s[i].1) && key_ok(s[i].0)),
{
    if pairs_convertible(s) {
        assert forall|i: int| 0 <= i < s.len() implies #[trigger] convertible(s[i].1) && key_ok(s[i].0) by {
            lemma_pairs_convertible_elim(s, i);
        }
    }
    if forall|i: int| 0 <= i < s.len() ==> #[trigger] convertible(s[i].1) && key_ok(s[i].0) {
        lemma_pairs_convertible_intro(s);
    }
}

proof fn lemma_items_converted(s: Seq<(ScriptValue, ScriptValue)>, items: Seq<LuaTableValue>)
    ensures
        items_converted(s, items) == (forall|i: int|
            0 <= i < s.len() ==> #[trigger] converts(s[i].1, items[s[i].0->Integer_0 - 1])),
    decreases s.len(),
{
    if s.len() > 0 {
        lemma_items_converted(s.drop_last(), items);
        if items_converted(s, items) {
            assert forall|i: int| 0 <= i < s.len() implies #[trigger] converts(
                s[i].1,
                items[s[i].0->Integer_0 - 1],
            ) by {
                if i < s.len() - 1 {
                    assert(s.drop_last()[i] == s[i]);
                }
            }
        }
        if forall|i: int| 0 <= i < s.len() ==> #[trigger] converts(s[i].1, items[s[i].0->Integer_0 - 1]) {
            assert forall|i: int| 0 <= i < s.drop_last().len() implies #[trigger] converts(
                s.drop_last()[i].1,
                items[s.drop_last()[i].0->Integer_0 - 1],
            ) by {
                assert(s.drop_last()[i] == s[i]);
                assert(converts(s[i].1, items[s[i].0->Integer_0 - 1]));
            }
            assert(converts(s[s.len() - 1].1, items[s[s.len() - 1].0->Integer_0 - 1]));
        }
    }
}

proof fn lemma_entries_converted(
    s: Seq<(ScriptValue, ScriptValue)>,
    all: Seq<(ScriptValue, ScriptValue)>,
    m: Map<Seq<char>, LuaTableValue>,
)
    requires
        s.len() <= all.len(),
        forall|i: int| 0 <= i < s.len() ==> s[i] == all[i],
    ensures
        entries_converted(s, all, m) == (forall|i: int|
            0 <= i < s.len() && wins(all, i) ==> #[trigger] converts(s[i].1, m[key_text(s[i].0)])),
    decreases s.len(),
{
    if s.len() > 0 {
        let p = s.drop_last();
        lemma_entries_converted(p, all, m);
        if entries_converted(s, all, m) {
            assert forall|i: int| 0 <= i < s.len() && wins(all, i) implies #[trigger] converts(
                s[i].1,
                m[key_text(s[i].0)],
            ) by {
                if i < s.len() - 1 {
                    assert(p[i] == s[i]);
                }
            }
        }
        if forall|i: int| 0 <= i < s.len() && wins(all, i) ==> #[trigger] converts(s[i].1, m[key_text(s[i].0)]) {
            assert forall|i: int| 0 <= i < p.len() && wins(all, i) implies #[trigger] converts(
                p[i].1,
                m[key_text(p[i].0)],
            ) by {
                assert(p[i] == s[i]);
                assert(converts(s[i].1, m[key_text(s[i].0)]));
            }
            if wins(all, s.len() - 1) {
                assert(converts(s[s.len() - 1].1, m[key_text(s[s.len() - 1].0)]));
            }
        }
    }
}

proof fn lemma_convertible_table(t: LuaTableSnapshot)
    ensures
        convertible(ScriptValue::Table(t)) == (forall|i: int|
            0 <= i < t.pairs@.len() ==> #[trigger] convertible(t.pairs@[i].1) && key_ok(t.pairs@[i].0)),
{
    assert(convertible(ScriptValue::Table(t)) == pairs_convertible(t.pairs@));
    lemma_pairs_convertible(t.pairs@);
}

/// The error of a key that a converted table cannot have: an unreadable
/// string's own error, or the unsupported key type.
pub open spec fn key_error(k: ScriptValue) -> Seq<char> {
    match k {
        ScriptValue::String(Err(m)) => m@,
        other => unsupported_key_message(lua_type_name(other)),
    }
}

/// Some key of the table is a string.
pub open spec fn has_string_key(pairs: Seq<(ScriptValue, ScriptValue)>) -> bool {
    exists|i: int| 0 <= i < pairs.len() && (#[trigger] pairs[i]).0 is String
}

/// The value of pair `a` is converted before that of pair `b`. A table with
/// no string key converts its values in the order of their integer keys;
/// any other table converts the string-keyed values first, then the
/// integer-keyed ones, each group in the order the VM walked them.
pub open spec fn converted_before(pairs: Seq<(ScriptValue, ScriptValue)>, a: int, b: int) -> bool {
    if has_string_key(pairs) {
        ||| (pairs[a].0 is String && pairs[b].0 is Integer)
        ||| ((pairs[a].0 is String) == (pairs[b].0 is String) && a < b)
    } else {
        pairs[a].0->Integer_0 < pairs[b].0->Integer_0
    }
}

/// The error that converting a value that cannot be converted gives: for
/// nil, an unsupported type or an unreadable string, its own error; for a
/// table, the error of its first unsupported key in walk order, else the
/// error of the first value, in conversion order (`converted_before`), that
/// cannot be converted.
pub open spec fn conversion_error(v: ScriptValue) -> Seq<char>
    decreases v,
{
    match v {
        ScriptValue::Nil => nil_message(),
        ScriptValue::Other(name) => unsupported_type_message(name@),
        ScriptValue::String(Err(m)) => m@,
        ScriptValue::Table(t) => table_error(t.pairs()),
        _ => Seq::empty(),
    }
}

/// The error that converting a table with these pairs gives, when it
/// cannot be converted.
pub open spec fn table_error(pairs: Seq<(ScriptValue, ScriptValue)>) -> Seq<char>
    decreases pairs,
{
    if exists|i: int| 0 <= i < pairs.len() && !key_ok(#[trigger] pairs[i].0) {
        let i = choose|i: int|
            0 <= i < pairs.len() && !key_ok(#[trigger] pairs[i].0) && forall|a: int|
                0 <= a < i ==> key_ok(pairs[a].0);
        if 0 <= i < pairs.len() {
            key_error(pairs[i].0)
        } else {
            Seq::empty()
        }
    } else {
        let j = choose|j: int|
            0 <= j < pairs.len() && !convertible(#[trigger] pairs[j].1) && forall|b: int|
                0 <= b < pairs.len() && b != j && !convertible(pairs[b].1) ==> converted_before(
                    pairs,
                    j,
                    b,
                );
        if 0 <= j < pairs.len() {
            conversion_error(pairs[j].1)
        } else {
            Seq::empty()
        }
    }
}

/// The first unsupported key, in walk order, gives a table's error.
proof fn lemma_table_error_key(pairs: Seq<(ScriptValue, ScriptValue)>, i: int)
    requires
        0 <= i < pairs.len(),
        !key_ok(pairs[i].0),
        forall|a: int| 0 <= a < i ==> key_ok(pairs[a].0),
    ensures
        table_error(pairs) == key_error(pairs[i].0),
{
    assert(!key_ok(pairs[i].0));
    let c = choose|c: int|
        0 <= c < pairs.len() && !key_ok(#[trigger] pairs[c].0) && forall|a: int|
            0 <= a < c ==> key_ok(pairs[a].0);
    assert(0 <= c < pairs.len() && !key_ok(pairs[c].0) && forall|a: int|
        0 <= a < c ==> key_ok(pairs[a].0));
    if c < i {
        assert(key_ok(pairs[c].0));
    } else if c > i {
        assert(key_ok(pairs[i].0));
    }
}

/// With every key supported, the first value in conversion order that
/// cannot be converted gives a table's error.
proof fn lemma_table_error_value(pairs: Seq<(ScriptValue, ScriptValue)>, j: int)
    requires
        forall|a: int| 0 <= a < pairs.len() ==> #[trigger] key_ok(pairs[a].0),
        0 <= j < pairs.len(),
        !convertible(pairs[j].1),
        forall|b: int|
            0 <= b < pairs.len() && b != j && !convertible(#[trigger] pairs[b].1) ==> converted_before(
                pairs,
                j,
                b,
            ),
    ensures
        table_error(pairs) == conversion_error(pairs[j].1),
{
    assert(!(exists|i: int| 0 <= i < pairs.len() && !key_ok(#[trigger] pairs[i].0)));
    assert(!convertible(pairs[j].1));
    let c = choose|c: int|
        0 <= c < pairs.len() && !convertible(#[trigger] pairs[c].1) && forall|b: int|
            0 <= b < pairs.len() && b != c && !convertible(pairs[b].1) ==> converted_before(
                pairs,
                c,
                b,
            );
    if c != j {
        assert(converted_before(pairs, c, j));
        assert(converted_before(pairs, j, c));
    }
}

/// `order` lists pair indexes in conversion order, every value that cannot
/// be converted among them, and every key is supported.
spec fn order_fits(pairs: Seq<(ScriptValue, ScriptValue)>, order: Seq<int>) -> bool {
    &&& forall|a: int| 0 <= a < pairs.len() ==> #[trigger] key_ok(pairs[a].0)
    &&& forall|m: int| 0 <= m < order.len() ==> 0 <= #[trigger] order[m] < pairs.len()
    &&& forall|m1: int, m2: int|
        0 <= m1 < m2 < order.len() ==> converted_before(pairs, order[m1], order[m2])
    &&& forall|b: int|
        0 <= b < pairs.len() && !convertible(#[trigger] pairs[b].1) ==> exists|m: int|
            0 <= m < order.len() && order[m] == b
}

/// The first value of `order` that cannot be converted gives the error.
proof fn lemma_first_failure(pairs: Seq<(ScriptValue, ScriptValue)>, order: Seq<int>, k: int)
    requires
        order_fits(pairs, order),
        0 <= k < order.len(),
        forall|m: int| 0 <= m < k ==> convertible(pairs[#[trigger] order[m]].1),
        !convertible(pairs[order[k]].1),
    ensures
        table_error(pairs) == conversion_error(pairs[order[k]].1),
{
    let j = order[k];
    assert(0 <= j < pairs.len());
    assert forall|b: int|
        0 <= b < pairs.len() && b != j && !convertible(#[trigger] pairs[b].1) implies converted_before(
        pairs,
        j,
        b,
    ) by {
        let m = choose|m: int| 0 <= m < order.len() && order[m] == b;
        if m < k {
            assert(convertible(pairs[order[m]].1));
        } else if m == k {
            assert(order[m] == j);
        }
    }
    lemma_table_error_value(pairs, j);
}

/// The order in which a table's values are converted: the string-keyed
/// pairs at `strs`, then the integer-keyed ones at `ints`.
spec fn conversion_order(strs: Seq<usize>, ints: Seq<(i64, usize)>) -> Seq<int> {
    Seq::new(strs.len(), |m: int| strs[m] as int) + Seq::new(ints.len(), |m: int| ints[m].1 as int)
}

proof fn lemma_conversion_order(
    pairs: Seq<(ScriptValue, ScriptValue)>,
    strs: Seq<usize>,
    ints: Seq<(i64, usize)>,
)
    requires
        pairs.len() <= usize::MAX,
        keys_unique(pairs),
        forall|a: int| 0 <= a < pairs.len() ==> #[trigger] key_ok(pairs[a].0),
        indexes_string_keys(pairs, strs),
        indexes_int_keys(pairs, ints),
        forall|m1: int, m2: int| 0 <= m1 < m2 < strs.len() ==> strs[m1] < strs[m2],
        strs.len() > 0 ==> forall|m1: int, m2: int|
            0 <= m1 < m2 < ints.len() ==> ints[m1].1 < ints[m2].1,
        strs.len() == 0 ==> forall|m1: int, m2: int|
            0 <= m1 < m2 < ints.len() ==> ints[m1].0 <= ints[m2].0,
    ensures
        order_fits(pairs, conversion_order(strs, ints)),
        conversion_order(strs, ints).len() == strs.len() + ints.len(),
        forall|m: int| 0 <= m < strs.len() ==> #[trigger] conversion_order(strs, ints)[m] == strs[m] as int,
        forall|m: int|
            0 <= m < ints.len() ==> #[trigger] conversion_order(strs, ints)[strs.len() + m] == ints[m].1 as int,
{
    let order = conversion_order(strs, ints);
    let ns = strs.len() as int;
    lemma_distinct_int_keys(pairs, ints);
    assert(has_string_key(pairs) == (ns > 0)) by {
        if ns > 0 {
            assert(pairs[strs[0] as int].0 is String);
        }
        if has_string_key(pairs) {
            let i = choose|i: int| 0 <= i < pairs.len() && (#[trigger] pairs[i]).0 is String;
            assert(strs.contains(i as usize));
        }
    }
    assert forall|m: int| 0 <= m < order.len() implies 0 <= #[trigger] order[m] < pairs.len() by {
        if m >= ns {
            assert(ints[m - ns].1 < pairs.len());
        }
    }
    assert forall|m1: int, m2: int| 0 <= m1 < m2 < order.len() implies converted_before(
        pairs,
        order[m1],
        order[m2],
    ) by {
        if m2 < ns {
            assert(pairs[strs[m1] as int].0 is String);
            assert(pairs[strs[m2] as int].0 is String);
        } else if m1 < ns {
            assert(pairs[strs[m1] as int].0 is String);
            assert(pairs[ints[m2 - ns].1 as int].0 is Integer);
        } else {
            let i1 = m1 - ns;
            let i2 = m2 - ns;
            assert(pairs[ints[i1].1 as int].0 == ScriptValue::Integer(ints[i1].0));
            assert(pairs[ints[i2].1 as int].0 == ScriptValue::Integer(ints[i2].0));
            if ns == 0 {
                assert(ints[i1].0 != ints[i2].0);
            }
        }
    }
    assert forall|b: int|
        0 <= b < pairs.len() && !convertible(#[trigger] pairs[b].1) implies exists|m: int|
        0 <= m < order.len() && order[m] == b by {
        assert(key_ok(pairs[b].0));
        assert(pairs[b] == pairs[b]);
        if pairs[b].0 is String {
            assert(strs.contains(b as usize));
            let m = choose|m: int| 0 <= m < strs.len() && strs[m] == b as usize;
            assert(order[m] == strs[m] as int);
            assert(order[m] == b);
        } else {
            let x = (pairs[b].0->Integer_0, b as usize);
            assert(ints.contains(x));
            let m = choose|m: int| 0 <= m < ints.len() && ints[m] == x;
            assert(order[ns + m] == ints[m].1 as int);
            assert(order[ns + m] == b);
        }
    }
}

proof fn lemma_converts_table(t: LuaTableSnapshot, out: LuaTableValue)
    ensures
        converts(ScriptValue::Table(t), out) == {
            &&& convertible(ScriptValue::Table(t))
            &&& if list_shape(t.pairs@) {
                &&& out is List
                &&& out->List_0@.len() == t.pairs@.len()
                &&& forall|i: int|
                    0 <= i < t.pairs@.len() ==> #[trigger] converts(
                        t.pairs@[i].1,
                        out->List_0@[t.pairs@[i].0->Integer_0 - 1],
                    )
            } else {
                &&& out is Table
                &&& out->Table_0@.dom() == key_texts(t.pairs@)
                &&& forall|i: int|
                    0 <= i < t.pairs@.len() && wins(t.pairs@, i) ==> #[trigger] converts(
                        t.pairs@[i].1,
                        out->Table_0@[key_text(t.pairs@[i].0)],
                    )
            }
        },
{
    if out is List {
        lemma_items_converted(t.pairs@, out->List_0@);
    }
    if out is Table {
        lemma_entries_converted(t.pairs@, t.pairs@, out->Table_0@);
    }
}

proof fn lemma_converts_to_map(t: LuaTableSnapshot, m: Map<Seq<char>, LuaTableValue>)
    ensures
        converts_to_map(t, m) == {
            &&& convertible(ScriptValue::Table(t))
            &&& m.dom() == key_texts(t.pairs@)
            &&& forall|i: int|
                0 <= i < t.pairs@.len() && wins(t.pairs@, i) ==> #[trigger] converts(
                    t.pairs@[i].1,
                    m[key_text(t.pairs@[i].0)],
                )
        },
{
    lemma_entries_converted(t.pairs@, t.pairs@, m);
}

fn lua_type_text(v: &ScriptValue) -> (r: String)
    ensures
        r@ == lua_type_name(*v),
{
    match v {
        ScriptValue::Nil => String::from_str("nil"),
        ScriptValue::Boolean(_) => String::from_str("boolean"),
        ScriptValue::Integer(_) => String::from_str("integer"),
        ScriptValue::Number(_) => String::from_str("number"),
        ScriptValue::String(_) => String::from_str("string"),
        ScriptValue::Table(_) => String::from_str("table"),
        ScriptValue::Other(name) => name.clone(),
    }
}


/// `keys.sort_by_key(|p| p.0)`: the same pairs, in ascending order of their
/// first component (`slice::sort_by_key`, a stable sort).
#[verifier::external_body]
fn sort_by_integer_key(keys: &mut Vec<(i64, usize)>)
    ensures
        final(keys)@.to_multiset() == old(keys)@.to_multiset(),
        forall|a: int, b: int|
            0 <= a < b < final(keys)@.len() ==> final(keys)@[a].0 <= final(keys)@[b].0,
{
    keys.sort_by_key(|p| p.0);
}

proof fn lemma_lower(s: Seq<(i64, usize)>, i: int)
    requires
        0 <= i < s.len(),
        forall|a: int| 0 <= a < s.len() ==> 1 <= #[trigger] s[a].0,
        forall|a: int, b: int| 0 <= a < b < s.len() ==> s[a].0 < s[b].0,
    ensures
        s[i].0 >= i + 1,
    decreases i,
{
    if i > 0 {
        lemma_lower(s, i - 1);
    }
}

proof fn lemma_upper(s: Seq<(i64, usize)>, i: int)
    requires
        0 <= i < s.len(),
        forall|a: int| 0 <= a < s.len() ==> #[trigger] s[a].0 <= s.len(),
        forall|a: int, b: int| 0 <= a < b < s.len() ==> s[a].0 < s[b].0,
    ensures
        s[i].0 <= i + 1,
    decreases s.len() - i,
{
    if i < s.len() - 1 {
        lemma_upper(s, i + 1);
    }
}

/// The integer-keyed pairs of `pairs` are exactly the entries `(key, index)`
/// of `ints`, each once.
spec fn indexes_int_keys(pairs: Seq<(ScriptValue, ScriptValue)>, ints: Seq<(i64, usize)>) -> bool {
    &&& ints.no_duplicates()
    &&& forall|m: int|
        0 <= m < ints.len() ==> (#[trigger] ints[m]).1 < pairs.len() && pairs[ints[m].1 as int].0
            == ScriptValue::Integer(ints[m].0)
    &&& forall|a: int|
        0 <= a < pairs.len() && (#[trigger] pairs[a]).0 is Integer ==> ints.contains(
            (pairs[a].0->Integer_0, a as usize),
        )
}

proof fn lemma_distinct_int_keys(pairs: Seq<(ScriptValue, ScriptValue)>, ints: Seq<(i64, usize)>)
    requires
        keys_unique(pairs),
        indexes_int_keys(pairs, ints),
    ensures
        forall|m1: int, m2: int|
            0 <= m1 < ints.len() && 0 <= m2 < ints.len() && m1 != m2 ==> ints[m1].0 != ints[m2].0,
{
    assert forall|m1: int, m2: int|
        0 <= m1 < ints.len() && 0 <= m2 < ints.len() && m1 != m2 implies ints[m1].0
        != ints[m2].0 by {
        let a1 = ints[m1].1 as int;
        let a2 = ints[m2].1 as int;
        if ints[m1].0 == ints[m2].0 {
            if a1 < a2 {
                assert(!same_key(pairs[a1].0, pairs[a2].0));
            } else if a2 < a1 {
                assert(!same_key(pairs[a2].0, pairs[a1].0));
            } else {
                assert(ints[m1] == ints[m2]);
            }
        }
    }
}

/// Sorting keeps an exact index of the integer keys.
proof fn lemma_sorted_index(
    pairs: Seq<(ScriptValue, ScriptValue)>,
    before: Seq<(i64, usize)>,
    after: Seq<(i64, usize)>,
)
    requires
        indexes_int_keys(pairs, before),
        after.to_multiset() == before.to_multiset(),
    ensures
        indexes_int_keys(pairs, after),
        after.len() == before.len(),
{
    broadcast use vstd::seq_lib::group_to_multiset_ensures;

    vstd::seq_lib::to_multiset_len(after);
    vstd::seq_lib::to_multiset_len(before);
    before.lemma_multiset_has_no_duplicates();
    assert forall|x: (i64, usize)| after.to_multiset().contains(x) implies after.to_multiset().count(
        x,
    ) == 1 by {
        assert(before.to_multiset().count(x) > 0);
    }
    after.lemma_multiset_has_no_duplicates_conv();
    assert forall|m: int| 0 <= m < after.len() implies (#[trigger] after[m]).1 < pairs.len()
        && pairs[after[m].1 as int].0 == ScriptValue::Integer(after[m].0) by {
        assert(after.contains(after[m]));
        assert(after.to_multiset().count(after[m]) > 0);
        assert(before.contains(after[m]));
    }
    assert forall|a: int|
        0 <= a < pairs.len() && (#[trigger] pairs[a]).0 is Integer implies after.contains(
        (pairs[a].0->Integer_0, a as usize),
    ) by {
        let x = (pairs[a].0->Integer_0, a as usize);
        assert(before.contains(x));
        assert(before.to_multiset().count(x) > 0);
    }
}

/// With every key an integer, sorted integer keys are `1, 2, ..., n`
/// exactly when the table is list-shaped.
proof fn lemma_list_shape(pairs: Seq<(ScriptValue, ScriptValue)>, ints: Seq<(i64, usize)>)
    requires
        keys_unique(pairs),
        indexes_int_keys(pairs, ints),
        ints.len() == pairs.len(),
        forall|a: int| 0 <= a < pairs.len() ==> (#[trigger] pairs[a]).0 is Integer,
        forall|a: int, b: int| 0 <= a < b < ints.len() ==> ints[a].0 <= ints[b].0,
    ensures
        list_shape(pairs) <==> forall|m: int| 0 <= m < ints.len() ==> #[trigger] ints[m].0 == m + 1,
{
    lemma_distinct_int_keys(pairs, ints);
    if forall|m: int| 0 <= m < ints.len() ==> #[trigger] ints[m].0 == m + 1 {
        assert forall|i: int| 0 <= i < pairs.len() implies (#[trigger] pairs[i]).0 is Integer && 1
            <= pairs[i].0->Integer_0 <= pairs.len() by {
            let x = (pairs[i].0->Integer_0, i as usize);
            assert(ints.contains(x));
            let m = choose|m: int| 0 <= m < ints.len() && ints[m] == x;
            assert(ints[m].0 == m + 1);
        }
        assert forall|i: int, j: int|
            0 <= i < j < pairs.len() implies pairs[i].0->Integer_0 != pairs[j].0->Integer_0 by {
            assert(!same_key(pairs[i].0, pairs[j].0));
            assert(pairs[i].0 is Integer);
            assert(pairs[j].0 is Integer);
        }
    }
    if list_shape(pairs) {
        assert forall|a: int| 0 <= a < ints.len() implies 1 <= #[trigger] ints[a].0 && ints[a].0
            <= ints.len() by {
            let i = ints[a].1 as int;
            assert(pairs[i].0 == ScriptValue::Integer(ints[a].0));
            assert(pairs[i] == pairs[i]);
        }
        assert forall|a: int, b: int| 0 <= a < b < ints.len() implies ints[a].0 < ints[b].0 by {
            assert(ints[a].0 <= ints[b].0);
            assert(ints[a].0 != ints[b].0);
        }
        assert forall|m: int| 0 <= m < ints.len() implies #[trigger] ints[m].0 == m + 1 by {
            lemma_lower(ints, m);
            lemma_upper(ints, m);
        }
    }
}


/// Converts one Luau value (`value_to_lua_table_value`).
///
/// Strings, integers, numbers and booleans keep their value; a table
/// converts as `converts` says. Nil, values of other types, unreadable
/// strings, and tables with other keys cannot be converted.
pub fn value_to_lua_table_value(v: &ScriptValue) -> (r: Result<LuaTableValue, String>)
    ensures
        r is Ok <==> convertible(*v),
        r matches Ok(out) ==> converts(*v, out),
        *v is Nil ==> (r matches Err(e) && e@ == nil_message()),
        *v matches ScriptValue::Other(name) ==> (r matches Err(e) && e@ == unsupported_type_message(name@)),
        *v matches ScriptValue::String(Err(m)) ==> r == Err::<LuaTableValue, String>(m),
        r matches Err(e) ==> e@ == conversion_error(*v),
        *v matches ScriptValue::Integer(i) ==> r == Ok::<LuaTableValue, String>(LuaTableValue::Int(i)),
        *v matches ScriptValue::Number(bits) ==> r == Ok::<LuaTableValue, String>(
            LuaTableValue::Float(bits),
        ),
        *v matches ScriptValue::Boolean(b) ==> r == Ok::<LuaTableValue, String>(LuaTableValue::Bool(b)),
        *v matches ScriptValue::String(Ok(s)) ==> r == Ok::<LuaTableValue, String>(
            LuaTableValue::String(s),
        ),
    decreases *v, 0int,
{
    match v {
        ScriptValue::String(Ok(s)) => Ok(LuaTableValue::String(s.clone())),
        ScriptValue::String(Err(e)) => Err(e.clone()),
        ScriptValue::Integer(i) => Ok(LuaTableValue::Int(*i)),
        ScriptValue::Number(bits) => Ok(LuaTableValue::Float(*bits)),
        ScriptValue::Boolean(b) => Ok(LuaTableValue::Bool(*b)),
        ScriptValue::Table(t) => table_to_value(t),
        ScriptValue::Nil => Err(String::from_str("cannot convert Nil to LuaTableValue")),
        ScriptValue::Other(name) => {
            let mut s = String::from_str("unsupported Luau type '");
            s.append(name.as_str());
            s.append("' in LuaTableValue conversion");
            Err(s)
        },
    }
}

/// Converts a Luau table (`table_to_value`): a `List` when its keys are
/// exactly `1..=n`, a `Table` keyed by the keys' text otherwise.
pub fn table_to_value(t: &LuaTableSnapshot) -> (r: Result<LuaTableValue, String>)
    ensures
        r is Ok <==> convertible(ScriptValue::Table(*t)),
        r matches Ok(out) ==> converts(ScriptValue::Table(*t), out),
        r matches Err(e) ==> e@ == conversion_error(ScriptValue::Table(*t)),
    decreases *t, 1int,
{
    proof {
        use_type_invariant(t);
        lemma_convertible_table(*t);
    }
    let pairs = &t.pairs;
    let n = pairs.len();
    let mut ints: Vec<(i64, usize)> = Vec::new();
    let mut strs: Vec<usize> = Vec::new();
    let mut i: usize = 0;
    while i < n
        invariant
            pairs == &t.pairs,
            n == pairs@.len(),
            i <= n,
            ints@.len() + strs@.len() == i,
            forall|a: int| 0 <= a < i ==> #[trigger] key_ok(pairs@[a].0),
            forall|m: int|
                0 <= m < ints@.len() ==> (#[trigger] ints@[m]).1 < i && pairs@[ints@[m].1 as int].0
                    == ScriptValue::Integer(ints@[m].0),
            forall|m1: int, m2: int| 0 <= m1 < m2 < ints@.len() ==> ints@[m1].1 < ints@[m2].1,
            forall|a: int|
                0 <= a < i && (#[trigger] pairs@[a]).0 is Integer ==> ints@.contains(
                    (pairs@[a].0->Integer_0, a as usize),
                ),
            forall|m: int|
                0 <= m < strs@.len() ==> #[trigger] strs@[m] < i && pairs@[strs@[m] as int].0 is String
                    && pairs@[strs@[m] as int].0->String_0 is Ok,
            forall|a: int|
                0 <= a < i && (#[trigger] pairs@[a]).0 is String ==> strs@.contains(a as usize),
            forall|m1: int, m2: int| 0 <= m1 < m2 < strs@.len() ==> strs@[m1] < strs@[m2],
        decreases n - i,
    {
        let ghost before_ints = ints@;
        let ghost before_strs = strs@;
        match &pairs[i].0 {
            ScriptValue::Integer(k) => {
                ints.push((*k, i));
                proof {
                    assert forall|a: int|
                        0 <= a < i + 1 && (#[trigger] pairs@[a]).0 is Integer implies ints@.contains(
                        (pairs@[a].0->Integer_0, a as usize),
                    ) by {
                        if a < i {
                            let x = (pairs@[a].0->Integer_0, a as usize);
                            let m = choose|m: int| 0 <= m < before_ints.len() && before_ints[m] == x;
                            assert(ints@[m] == x);
                        } else {
                            assert(ints@[ints@.len() - 1] == (pairs@[a].0->Integer_0, a as usize));
                        }
                    }
                    assert forall|a: int|
                        0 <= a < i + 1 && (#[trigger] pairs@[a]).0 is String implies strs@.contains(
                        a as usize,
                    ) by {
                        assert(a < i);
                    }
                }
            },
            ScriptValue::String(Ok(_)) => {
                strs.push(i);
                proof {
                    assert forall|a: int|
                        0 <= a < i + 1 && (#[trigger] pairs@[a]).0 is String implies strs@.contains(
                        a as usize,
                    ) by {
                        if a < i {
                            let m = choose|m: int|
                                0 <= m < before_strs.len() && before_strs[m] == a as usize;
                            assert(strs@[m] == a as usize);
                        } else {
                            assert(strs@[strs@.len() - 1] == a as usize);
                        }
                    }
                    assert forall|a: int|
                        0 <= a < i + 1 && (#[trigger] pairs@[a]).0 is Integer implies ints@.contains(
                        (pairs@[a].0->Integer_0, a as usize),
                    ) by {
                        assert(a < i);
                    }
                }
            },
            ScriptValue::String(Err(e)) => {
                proof {
                    assert(!key_ok(pairs@[i as int].0));
                    if convertible(ScriptValue::Table(*t)) {
                        assert(pairs_convertible(t.pairs@));
                        lemma_pairs_convertible_elim(t.pairs@, i as int);
                    }
                    lemma_table_error_key(pairs@, i as int);
                }
                return Err(e.clone());
            },
            other => {
                proof {
                    assert(!key_ok(pairs@[i as int].0));
                    if convertible(ScriptValue::Table(*t)) {
                        assert(pairs_convertible(t.pairs@));
                        lemma_pairs_convertible_elim(t.pairs@, i as int);
                    }
                }
                let mut s = String::from_str("unsupported table key type '");
                let name = lua_type_text(other);
                s.append(name.as_str());
                s.append("' in LuaTableValue conversion");
                proof {
                    lemma_table_error_key(pairs@, i as int);
                }
                return Err(s);
            },
        }
        i = i + 1;
    }
    proof {
        if !ints@.no_duplicates() {
            let (m1, m2) = choose|m1: int, m2: int|
                0 <= m1 < ints@.len() && 0 <= m2 < ints@.len() && m1 != m2 && ints@[m1] == ints@[m2];
            if m1 < m2 {
                assert(ints@[m1].1 < ints@[m2].1);
            } else {
                assert(ints@[m2].1 < ints@[m1].1);
            }
        }
        assert(indexes_int_keys(pairs@, ints@));
    }
    if strs.len() == 0 {
        let ghost unsorted = ints@;
        sort_by_integer_key(&mut ints);
        proof {
            lemma_sorted_index(pairs@, unsorted, ints@);
            assert forall|a: int| 0 <= a < pairs@.len() implies (#[trigger] pairs@[a]).0 is Integer by {
                assert(key_ok(pairs@[a].0));
                if pairs@[a].0 is String {
                    assert(strs@.contains(a as usize));
                }
            }
            lemma_list_shape(pairs@, ints@);
        }
        let mut is_array = true;
        let mut j: usize = 0;
        while j < ints.len()
            invariant
                j <= ints@.len(),
                is_array == forall|m: int| 0 <= m < j ==> #[trigger] ints@[m].0 == m + 1,
            decreases ints@.len() - j,
        {
            let k = ints[j].0;
            if !(k > 0 && (k as u64) - 1 == j as u64) {
                is_array = false;
            }
            j = j + 1;
        }
        if is_array {
            return build_list(t, &ints);
        }
        proof {
            assert(!list_shape(pairs@));
        }
    } else {
        proof {
            let a = strs@[0] as int;
            assert(pairs@[a].0 is String);
            assert(!list_shape(pairs@));
        }
    }
    proof {
        assert(indexes_string_keys(pairs@, strs@));
    }
    let r = build_map(t, &strs, &ints);
    proof {
        if r is Ok {
            let out = r->Ok_0;
            lemma_converts_table(*t, out);
            lemma_converts_to_map(*t, out->Table_0@);
        }
    }
    r
}


/// Builds the `List` of a list-shaped table, whose integer keys `ints`
/// holds in ascending order: item `m` is the value under key `m + 1`.
fn build_list(t: &LuaTableSnapshot, ints: &Vec<(i64, usize)>) -> (r: Result<LuaTableValue, String>)
    requires
        t.pairs@.len() <= usize::MAX,
        forall|a: int| 0 <= a < t.pairs@.len() ==> (#[trigger] t.pairs@[a]).0 is Integer,
        indexes_int_keys(t.pairs@, ints@),
        ints@.len() == t.pairs@.len(),
        forall|m: int| 0 <= m < ints@.len() ==> #[trigger] ints@[m].0 == m + 1,
        list_shape(t.pairs@),
    ensures
        r is Ok <==> convertible(ScriptValue::Table(*t)),
        r matches Ok(out) ==> converts(ScriptValue::Table(*t), out),
        r matches Err(e) ==> e@ == table_error(t.pairs@),
    decreases *t, 0int,
{
    proof {
        use_type_invariant(t);
        lemma_convertible_table(*t);
    }
    let pairs = &t.pairs;
    let n = pairs.len();
    let ghost order = conversion_order(Seq::<usize>::empty(), ints@);
    proof {
        assert forall|a: int| 0 <= a < pairs@.len() implies #[trigger] key_ok(pairs@[a].0) by {
            assert(pairs@[a].0 is Integer);
        }
        assert(indexes_string_keys(pairs@, Seq::<usize>::empty())) by {
            assert forall|a: int| 0 <= a < pairs@.len() && (#[trigger] pairs@[a]).0 is String implies false by {
                assert(pairs@[a].0 is Integer);
            }
        }
        assert forall|m1: int, m2: int| 0 <= m1 < m2 < ints@.len() implies ints@[m1].0 <= ints@[m2].0 by {
            assert(ints@[m1].0 == m1 + 1);
            assert(ints@[m2].0 == m2 + 1);
        }
        lemma_conversion_order(pairs@, Seq::<usize>::empty(), ints@);
    }
    let mut items: Vec<LuaTableValue> = Vec::new();
    let mut j: usize = 0;
    while j < ints.len()
        invariant
            pairs == &t.pairs,
            n == pairs@.len(),
            ints@.len() == n,
            j <= n,
            items@.len() == j,
            indexes_int_keys(pairs@, ints@),
            order_fits(pairs@, order),
            order.len() == n,
            forall|m: int| 0 <= m < n ==> #[trigger] order[m] == ints@[m].1 as int,
            forall|m: int| 0 <= m < j ==> #[trigger] converts(pairs@[ints@[m].1 as int].1, items@[m]),
            forall|m: int| 0 <= m < j ==> #[trigger] convertible(pairs@[ints@[m].1 as int].1),
        decreases n - j,
    {
        let idx = ints[j].1;
        proof {
            assert(ints@[j as int].1 < n);
        }
        let item = value_to_lua_table_value(&pairs[idx].1);
        match item {
            Ok(v) => {
                items.push(v);
            },
            Err(e) => {
                proof {
                    assert(!convertible(pairs@[idx as int].1));
                    assert(!(convertible(t.pairs@[idx as int].1) && key_ok(t.pairs@[idx as int].0)));
                    lemma_convertible_table(*t);
                    assert forall|m: int| 0 <= m < j implies convertible(pairs@[#[trigger] order[m]].1) by {
                        assert(order[m] == ints@[m].1 as int);
                    }
                    assert(order[j as int] == idx as int);
                    lemma_first_failure(pairs@, order, j as int);
                }
                return Err(e);
            },
        }
        j = j + 1;
    }
    proof {
        let out = LuaTableValue::List(items);
        assert forall|a: int| 0 <= a < pairs@.len() implies #[trigger] convertible(pairs@[a].1) && key_ok(pairs@[a].0) && converts(
            pairs@[a].1,
            items@[pairs@[a].0->Integer_0 - 1],
        ) by {
            let x = (pairs@[a].0->Integer_0, a as usize);
            assert(pairs@[a] == pairs@[a]);
            assert(ints@.contains(x));
            let m = choose|m: int| 0 <= m < ints@.len() && ints@[m] == x;
            assert(ints@[m].0 == m + 1);
            assert(convertible(pairs@[ints@[m].1 as int].1));
            assert(converts(pairs@[ints@[m].1 as int].1, items@[m]));
        }
        assert(list_shape(pairs@));
        lemma_converts_table(*t, out);
        assert(convertible(ScriptValue::Table(*t)));
        assert(converts(ScriptValue::Table(*t), out));
    }
    return Ok(LuaTableValue::List(items));
}

/// The string-keyed pairs of `pairs` are exactly those at the indexes in
/// `strs`.
spec fn indexes_string_keys(pairs: Seq<(ScriptValue, ScriptValue)>, strs: Seq<usize>) -> bool {
    &&& forall|m: int|
        0 <= m < strs.len() ==> #[trigger] strs[m] < pairs.len() && pairs[strs[m] as int].0 is String
            && pairs[strs[m] as int].0->String_0 is Ok
    &&& forall|a: int| 0 <= a < pairs.len() && (#[trigger] pairs[a]).0 is String ==> strs.contains(a as usize)
}

/// The texts of the string keys at `strs[..j]` and of the integer keys at
/// `ints[..k]`.
spec fn texts_so_far(
    pairs: Seq<(ScriptValue, ScriptValue)>,
    strs: Seq<usize>,
    j: int,
    ints: Seq<(i64, usize)>,
    k: int,
) -> Set<Seq<char>> {
    Set::new(
        |x: Seq<char>|
            (exists|m: int| 0 <= m < j && key_text(pairs[strs[m] as int].0) == x) || (exists|m: int|
                0 <= m < k && int_text(ints[m].0 as int) == x),
    )
}

/// Builds the `Table` of a table that is not a list: the string-keyed pairs
/// first, in their order, then the integer-keyed ones in the order of `ints`.
fn build_map(t: &LuaTableSnapshot, strs: &Vec<usize>, ints: &Vec<(i64, usize)>) -> (r: Result<
    LuaTableValue,
    String,
>)
    requires
        forall|a: int| 0 <= a < t.pairs@.len() ==> #[trigger] key_ok(t.pairs@[a].0),
        indexes_string_keys(t.pairs@, strs@),
        indexes_int_keys(t.pairs@, ints@),
        forall|m1: int, m2: int| 0 <= m1 < m2 < strs@.len() ==> strs@[m1] < strs@[m2],
        strs@.len() > 0 ==> forall|m1: int, m2: int|
            0 <= m1 < m2 < ints@.len() ==> ints@[m1].1 < ints@[m2].1,
        strs@.len() == 0 ==> forall|m1: int, m2: int|
            0 <= m1 < m2 < ints@.len() ==> ints@[m1].0 <= ints@[m2].0,
    ensures
        r is Ok <==> convertible(ScriptValue::Table(*t)),
        r matches Ok(out) ==> (out matches LuaTableValue::Table(m) && converts_to_map(*t, m@)),
        r matches Err(e) ==> e@ == table_error(t.pairs@),
    decreases *t, 0int,
{
    proof {
        use_type_invariant(t);
        lemma_distinct_int_keys(t.pairs@, ints@);
        lemma_convertible_table(*t);
    }
    let pairs = &t.pairs;
    let n = pairs.len();
    let ghost ps = pairs@;
    let ghost order = conversion_order(strs@, ints@);
    proof {
        lemma_conversion_order(ps, strs@, ints@);
    }
    let mut map = TableMap::new();
    let mut j: usize = 0;
    while j < strs.len()
        invariant
            pairs == &t.pairs,
            ps == pairs@,
            n == ps.len(),
            keys_unique(ps),
            indexes_string_keys(ps, strs@),
            order_fits(ps, order),
            forall|m: int| 0 <= m < strs@.len() ==> #[trigger] order[m] == strs@[m] as int,
            j <= strs@.len(),
            map@.dom() == texts_so_far(ps, strs@, j as int, ints@, 0),
            forall|m: int| 0 <= m < j ==> #[trigger] convertible(ps[strs@[m] as int].1),
            forall|m: int|
                0 <= m < j ==> #[trigger] converts(
                    ps[strs@[m] as int].1,
                    map@[key_text(ps[strs@[m] as int].0)],
                ),
        decreases strs@.len() - j,
    {
        let a = strs[j];
        let item = value_to_lua_table_value(&pairs[a].1);
        let v = match item {
            Ok(v) => v,
            Err(e) => {
                proof {
                    assert(!convertible(ps[a as int].1));
                    assert(!(convertible(t.pairs@[a as int].1) && key_ok(t.pairs@[a as int].0)));
                    lemma_convertible_table(*t);
                    assert forall|m: int| 0 <= m < j implies convertible(ps[#[trigger] order[m]].1) by {
                        assert(order[m] == strs@[m] as int);
                    }
                    assert(order[j as int] == a as int);
                    lemma_first_failure(ps, order, j as int);
                }
                return Err(e);
            },
        };
        let key = match &pairs[a].0 {
            ScriptValue::String(Ok(s)) => s.clone(),
            _ => {
                proof {
                    assert(false);
                }
                String::new()
            },
        };
        let ghost old_map = map@;
        map.insert(key, v);
        proof {
            assert forall|m: int|
                0 <= m < j + 1 implies #[trigger] converts(
                ps[strs@[m] as int].1,
                map@[key_text(ps[strs@[m] as int].0)],
            ) by {
                if m < j {
                    let b = strs@[m] as int;
                    if key_text(ps[b].0) == key_text(ps[a as int].0) && b != a {
                        if b < a {
                            assert(!same_key(ps[b].0, ps[a as int].0));
                        } else {
                            assert(!same_key(ps[a as int].0, ps[b].0));
                        }
                    }
                }
            }
            assert(map@.dom() =~= texts_so_far(ps, strs@, j + 1, ints@, 0)) by {
                assert forall|x: Seq<char>| #[trigger] map@.dom().contains(x) == texts_so_far(
                    ps,
                    strs@,
                    j + 1,
                    ints@,
                    0,
                ).contains(x) by {
                    if old_map.dom().contains(x) {
                        let m = choose|m: int| 0 <= m < j && key_text(ps[strs@[m] as int].0) == x;
                        assert(0 <= m < j + 1);
                    }
                    if texts_so_far(ps, strs@, j + 1, ints@, 0).contains(x) {
                        let m = choose|m: int|
                            0 <= m < j + 1 && key_text(ps[strs@[m] as int].0) == x;
                        if m < j {
                            assert(old_map.dom().contains(x));
                        }
                    }
                }
            }
        }
        j = j + 1;
    }
    let mut k: usize = 0;
    while k < ints.len()
        invariant
            pairs == &t.pairs,
            ps == pairs@,
            n == ps.len(),
            keys_unique(ps),
            indexes_string_keys(ps, strs@),
            indexes_int_keys(ps, ints@),
            forall|m1: int, m2: int|
                0 <= m1 < ints@.len() && 0 <= m2 < ints@.len() && m1 != m2 ==> ints@[m1].0
                    != ints@[m2].0,
            order_fits(ps, order),
            forall|m: int| 0 <= m < strs@.len() ==> #[trigger] order[m] == strs@[m] as int,
            forall|m: int|
                0 <= m < ints@.len() ==> #[trigger] order[strs@.len() + m] == ints@[m].1 as int,
            k <= ints@.len(),
            map@.dom() == texts_so_far(ps, strs@, strs@.len() as int, ints@, k as int),
            forall|m: int|
                0 <= m < strs@.len() ==> #[trigger] convertible(ps[strs@[m] as int].1),
            forall|m: int|
                0 <= m < strs@.len() && wins(ps, strs@[m] as int) ==> #[trigger] converts(
                    ps[strs@[m] as int].1,
                    map@[key_text(ps[strs@[m] as int].0)],
                ),
            forall|m: int| 0 <= m < k ==> #[trigger] convertible(ps[ints@[m].1 as int].1),
            forall|m: int|
                0 <= m < k ==> #[trigger] converts(
                    ps[ints@[m].1 as int].1,
                    map@[int_text(ints@[m].0 as int)],
                ),
        decreases ints@.len() - k,
    {
        let key_int = ints[k].0;
        let a = ints[k].1;
        let item = value_to_lua_table_value(&pairs[a].1);
        let v = match item {
            Ok(v) => v,
            Err(e) => {
                proof {
                    assert(!convertible(ps[a as int].1));
                    assert(!(convertible(t.pairs@[a as int].1) && key_ok(t.pairs@[a as int].0)));
                    lemma_convertible_table(*t);
                    let ns = strs@.len() as int;
                    assert forall|m: int| 0 <= m < ns + k implies convertible(ps[#[trigger] order[m]].1) by {
                        if m < ns {
                            assert(order[m] == strs@[m] as int);
                        } else {
                            assert(order[ns + (m - ns)] == ints@[m - ns].1 as int);
                        }
                    }
                    assert(order[ns + k] == a as int);
                    lemma_first_failure(ps, order, ns + k);
                }
                return Err(e);
            },
        };
        let key = decimal_text(key_int);
        let ghost old_map = map@;
        map.insert(key, v);
        proof {
            assert forall|m: int|
                0 <= m < k + 1 implies #[trigger] converts(
                ps[ints@[m].1 as int].1,
                map@[int_text(ints@[m].0 as int)],
            ) by {
                if m < k && int_text(ints@[m].0 as int) == int_text(key_int as int) {
                    lemma_int_text_injective(ints@[m].0 as int, key_int as int);
                }
            }
            assert forall|m: int|
                0 <= m < strs@.len() && wins(ps, strs@[m] as int) implies #[trigger] converts(
                ps[strs@[m] as int].1,
                map@[key_text(ps[strs@[m] as int].0)],
            ) by {
                let b = strs@[m] as int;
                assert(ps[a as int].0 == ScriptValue::Integer(key_int));
                if key_text(ps[b].0) == int_text(key_int as int) {
                    assert(!(ps[a as int].0 is Integer && int_text(ps[a as int].0->Integer_0 as int)
                        == ps[b].0->String_0->Ok_0@));
                }
            }
            assert(map@.dom() =~= texts_so_far(ps, strs@, strs@.len() as int, ints@, k + 1)) by {
                let n_s = strs@.len() as int;
                assert forall|x: Seq<char>| #[trigger] map@.dom().contains(x) == texts_so_far(
                    ps,
                    strs@,
                    n_s,
                    ints@,
                    k + 1,
                ).contains(x) by {
                    if old_map.dom().contains(x) {
                        assert(texts_so_far(ps, strs@, n_s, ints@, k as int).contains(x));
                        if exists|m: int| 0 <= m < n_s && key_text(ps[strs@[m] as int].0) == x {
                        } else {
                            let m = choose|m: int| 0 <= m < k && int_text(ints@[m].0 as int) == x;
                            assert(0 <= m < k + 1);
                        }
                    }
                    if texts_so_far(ps, strs@, n_s, ints@, k + 1).contains(x) && x != int_text(
                        key_int as int,
                    ) {
                        if exists|m: int| 0 <= m < n_s && key_text(ps[strs@[m] as int].0) == x {
                            assert(texts_so_far(ps, strs@, n_s, ints@, k as int).contains(x));
                        } else {
                            let m = choose|m: int| 0 <= m < k + 1 && int_text(ints@[m].0 as int) == x;
                            assert(m < k);
                            assert(texts_so_far(ps, strs@, n_s, ints@, k as int).contains(x));
                        }
                    }
                }
            }
        }
        k = k + 1;
    }
    proof {
        let n_s = strs@.len() as int;
        let n_i = ints@.len() as int;
        assert(map@.dom() =~= key_texts(ps)) by {
            assert forall|x: Seq<char>| #[trigger] map@.dom().contains(x) == key_texts(ps).contains(x) by {
                if map@.dom().contains(x) {
                    if exists|m: int| 0 <= m < n_s && key_text(ps[strs@[m] as int].0) == x {
                        let m = choose|m: int| 0 <= m < n_s && key_text(ps[strs@[m] as int].0) == x;
                        assert(0 <= strs@[m] < ps.len());
                    } else {
                        let m = choose|m: int| 0 <= m < n_i && int_text(ints@[m].0 as int) == x;
                        let b = ints@[m].1 as int;
                        assert(ps[b].0 == ScriptValue::Integer(ints@[m].0));
                        assert(key_text(ps[b].0) == x);
                    }
                }
                if key_texts(ps).contains(x) {
                    let b = choose|b: int| 0 <= b < ps.len() && key_text(ps[b].0) == x;
                    assert(key_ok(ps[b].0));
                    if ps[b].0 is Integer {
                        assert(ps[b] == ps[b]);
                        let y = (ps[b].0->Integer_0, b as usize);
                        assert(ints@.contains(y));
                        let m = choose|m: int| 0 <= m < n_i && ints@[m] == y;
                        assert(int_text(ints@[m].0 as int) == x);
                    } else {
                        assert(ps[b] == ps[b]);
                        assert(strs@.contains(b as usize));
                        let m = choose|m: int| 0 <= m < n_s && strs@[m] == b as usize;
                        assert(key_text(ps[strs@[m] as int].0) == x);
                    }
                }
            }
        }
        assert forall|b: int| 0 <= b < ps.len() implies #[trigger] convertible(ps[b].1) && key_ok(ps[b].0) by {
            assert(ps[b] == ps[b]);
            assert(key_ok(t.pairs@[b].0));
            if ps[b].0 is Integer {
                let y = (ps[b].0->Integer_0, b as usize);
                assert(ints@.contains(y));
                let m = choose|m: int| 0 <= m < n_i && ints@[m] == y;
                assert(convertible(ps[ints@[m].1 as int].1));
            } else {
                assert(strs@.contains(b as usize));
                let m = choose|m: int| 0 <= m < n_s && strs@[m] == b as usize;
                assert(convertible(ps[strs@[m] as int].1));
            }
        }
        assert forall|b: int| 0 <= b < ps.len() && wins(ps, b) implies #[trigger] converts(
            ps[b].1,
            map@[key_text(ps[b].0)],
        ) by {
            assert(ps[b] == ps[b]);
            assert(key_ok(ps[b].0));
            if ps[b].0 is Integer {
                let y = (ps[b].0->Integer_0, b as usize);
                assert(ints@.contains(y));
                let m = choose|m: int| 0 <= m < n_i && ints@[m] == y;
                assert(converts(ps[ints@[m].1 as int].1, map@[int_text(ints@[m].0 as int)]));
            } else {
                assert(strs@.contains(b as usize));
                let m = choose|m: int| 0 <= m < n_s && strs@[m] == b as usize;
                assert(converts(ps[strs@[m] as int].1, map@[key_text(ps[strs@[m] as int].0)]));
            }
        }
    }
    proof {
        lemma_converts_to_map(*t, map@);
    }
    Ok(LuaTableValue::Table(map))
}


/// Some pair has the integer key `k`.
spec fn has_int_key(pairs: Seq<(ScriptValue, ScriptValue)>, k: int) -> bool {
    exists|i: int| 0 <= i < pairs.len() && pairs[i].0->Integer_0 == k
}

/// A list-shaped table has every integer of `1..=n` among its keys.
proof fn lemma_list_keys_cover(pairs: Seq<(ScriptValue, ScriptValue)>)
    requires
        list_shape(pairs),
    ensures
        forall|k: int| 1 <= k <= pairs.len() ==> #[trigger] has_int_key(pairs, k),
{
    let n = pairs.len() as int;
    let keys = Seq::new(pairs.len(), |i: int| pairs[i].0->Integer_0 as int);
    assert(keys.no_duplicates()) by {
        assert forall|i: int, j: int| 0 <= i < keys.len() && 0 <= j < keys.len() && i != j implies keys[i]
            != keys[j] by {
            if i < j {
                assert(pairs[i].0->Integer_0 != pairs[j].0->Integer_0);
            } else {
                assert(pairs[j].0->Integer_0 != pairs[i].0->Integer_0);
            }
        }
    }
    keys.unique_seq_to_set();
    let range = vstd::set_lib::set_int_range(1, n + 1);
    vstd::set_lib::lemma_int_range(1, n + 1);
    assert(keys.to_set().subset_of(range)) by {
        assert forall|x: int| keys.to_set().contains(x) implies range.contains(x) by {
            let i = choose|i: int| 0 <= i < keys.len() && keys[i] == x;
            assert(pairs[i] == pairs[i]);
        }
    }
    vstd::seq_lib::seq_to_set_is_finite(keys);
    vstd::set_lib::lemma_subset_equality(keys.to_set(), range);
    assert forall|k: int| 1 <= k <= pairs.len() implies #[trigger] has_int_key(pairs, k) by {
        assert(range.contains(k));
        assert(keys.to_set().contains(k));
        let i = choose|i: int| 0 <= i < keys.len() && keys[i] == k;
        assert(pairs[i].0->Integer_0 == k);
    }
}

/// The text of the key under which list item `j` is read: `j + 1` in
/// decimal.
spec fn index_text(j: int) -> Seq<char> {
    int_text(j + 1)
}

/// Reads a named sub-table out of a script's environment
/// (`extract_sub_table`): `value` is what the environment holds under
/// `name`.
///
/// Nil (the name is absent) gives `None`; a table gives its entries, a list
/// being read with the keys `"1"` .. `"n"`; any other value is an error.
pub fn extract_sub_table(value: &ScriptValue, name: &str) -> (r: Result<Option<TableMap>, String>)
    ensures
        match *value {
            ScriptValue::Nil => r == Ok::<Option<TableMap>, String>(None),
            ScriptValue::Table(t) => {
                &&& (r is Ok <==> convertible(*value))
                &&& (r matches Ok(o) ==> (o matches Some(m) && converts_to_map(t, m@)))
                &&& (r matches Err(e) ==> e@ == conversion_error(*value))
            },
            other => r matches Err(e) && e@ == not_a_table_message(name@, lua_type_name(other)),
        },
{
    match value {
        ScriptValue::Nil => Ok(None),
        ScriptValue::Table(t) => {
            let converted = table_to_value(t);
            match converted {
                Err(e) => Err(e),
                Ok(LuaTableValue::Table(m)) => {
                    proof {
                        lemma_converts_table(*t, LuaTableValue::Table(m));
                        lemma_converts_to_map(*t, m@);
                    }
                    Ok(Some(m))
                },
                Ok(LuaTableValue::List(items)) => {
                    let ghost ps = t.pairs@;
                    let ghost orig = items@;
                    let n = items.len();
                    proof {
                        use_type_invariant(t);
                        lemma_converts_table(*t, LuaTableValue::List(items));
                        assert(list_shape(ps));
                        lemma_list_keys_cover(ps);
                        if n > 0 {
                            assert(has_int_key(ps, n as int));
                            let i = choose|i: int| 0 <= i < ps.len() && ps[i].0->Integer_0 == n as int;
                        }
                    }
                    let mut items = items;
                    let mut map = TableMap::new();
                    while items.len() > 0
                        invariant
                            n == orig.len(),
                            n <= i64::MAX,
                            items@.len() <= n,
                            items@ == orig.take(items@.len() as int),
                            map@.dom() == Set::new(
                                |x: Seq<char>|
                                    exists|j: int| items@.len() <= j < n && index_text(j) == x,
                            ),
                            forall|j: int|
                                items@.len() <= j < n ==> #[trigger] map@[index_text(j)] == orig[j],
                        decreases items@.len(),
                    {
                        let j = items.len() - 1;
                        let v = items.pop().unwrap();
                        let key = decimal_text((j as i64) + 1);
                        let ghost old_map = map@;
                        map.insert(key, v);
                        proof {
                            assert(items@ == orig.take(j as int));
                            assert(v == orig[j as int]);
                            assert forall|jj: int| j <= jj < n implies #[trigger] map@[index_text(jj)]
                                == orig[jj] by {
                                if jj != j && index_text(jj) == index_text(j as int) {
                                    lemma_int_text_injective(jj + 1, j + 1);
                                }
                            }
                            assert(map@.dom() =~= Set::new(
                                |x: Seq<char>| exists|jj: int| j <= jj < n && index_text(jj) == x,
                            )) by {
                                assert forall|x: Seq<char>| #[trigger] map@.dom().contains(x) implies exists|jj: int|
                                    j <= jj < n && index_text(jj) == x by {
                                    if x != index_text(j as int) {
                                        let jj = choose|jj: int| j + 1 <= jj < n && index_text(jj) == x;
                                        assert(j <= jj < n);
                                    }
                                }
                                assert forall|x: Seq<char>| (exists|jj: int| j <= jj < n && index_text(jj) == x) implies #[trigger] map@.dom().contains(x) by {
                                    let jj = choose|jj: int| j <= jj < n && index_text(jj) == x;
                                    if jj != j {
                                        assert(old_map.dom().contains(x));
                                    }
                                }
                            }
                        }
                    }
                    proof {
                        assert(map@.dom() =~= key_texts(ps)) by {
                            assert forall|x: Seq<char>| #[trigger] map@.dom().contains(x) implies key_texts(ps).contains(x) by {
                                let j = choose|j: int| 0 <= j < n && index_text(j) == x;
                                assert(has_int_key(ps, j + 1));
                                let i = choose|i: int| 0 <= i < ps.len() && ps[i].0->Integer_0 == j + 1;
                                assert(ps[i] == ps[i]);
                                assert(key_text(ps[i].0) == x);
                            }
                            assert forall|x: Seq<char>| key_texts(ps).contains(x) implies #[trigger] map@.dom().contains(x) by {
                                let i = choose|i: int| 0 <= i < ps.len() && key_text(ps[i].0) == x;
                                assert(ps[i] == ps[i]);
                                let k = ps[i].0->Integer_0 as int;
                                assert(0 <= k - 1 < n && index_text(k - 1) == x);
                            }
                        }
                        assert forall|i: int| 0 <= i < ps.len() && wins(ps, i) implies #[trigger] converts(
                            ps[i].1,
                            map@[key_text(ps[i].0)],
                        ) by {
                            assert(ps[i] == ps[i]);
                            let k = ps[i].0->Integer_0 as int;
                            assert(map@[index_text(k - 1)] == orig[k - 1]);
                        }
                        lemma_converts_to_map(*t, map@);
                    }
                    Ok(Some(map))
                },
                Ok(_) => {
                    proof {
                        lemma_converts_table(*t, converted->Ok_0);
                        assert(false);
                    }
                    Ok(None)
                },
            }
        },
        other => {
            let mut s = String::from_str("sub-table '");
            s.append(name);
            s.append("' is not a table (got ");
            let got = lua_type_text(other);
            s.append(got.as_str());
            s.append(")");
            Err(s)
        },
    }
}

/// A table converts to a `List` exactly when its keys are the integers
/// `1..=n`: the list has `n` items, item `k - 1` converted from the value
/// under key `k`. Any other table converts to a `Table` whose keys are the
/// texts of the table's keys.
pub proof fn law_list_or_table(t: LuaTableSnapshot, out: LuaTableValue)
    requires
        converts(ScriptValue::Table(t), out),
    ensures
        (out is List) == list_shape(t.pairs()),
        out is List ==> out->List_0@.len() == t.pairs().len() && forall|i: int|
            0 <= i < t.pairs().len() ==> #[trigger] converts(
                t.pairs()[i].1,
                out->List_0@[t.pairs()[i].0->Integer_0 - 1],
            ),
        out is Table ==> out->Table_0@.dom() == key_texts(t.pairs()),
        out is Table ==> forall|i: int|
            0 <= i < t.pairs().len() && wins(t.pairs(), i) ==> #[trigger] converts(
                t.pairs()[i].1,
                out->Table_0@[key_text(t.pairs()[i].0)],
            ),
{
    lemma_converts_table(t, out);
}

/// A table can be converted exactly when every key is an integer or a
/// readable string and every value can be converted.
pub proof fn law_table_convertible(t: LuaTableSnapshot)
    ensures
        convertible(ScriptValue::Table(t)) == (forall|i: int|
            0 <= i < t.pairs().len() ==> #[trigger] convertible(t.pairs()[i].1) && key_ok(
                t.pairs()[i].0,
            )),
{
    assert(t.pairs() == t.pairs@);
    lemma_convertible_table(t);
}

/// What reading a convertible table as a sub-table gives: its keys' texts,
/// each holding the conversion of the value of the pair that wins it.
pub proof fn law_sub_table_entries(t: LuaTableSnapshot, m: Map<Seq<char>, LuaTableValue>)
    requires
        converts_to_map(t, m),
    ensures
        convertible(ScriptValue::Table(t)),
        m.dom() == key_texts(t.pairs()),
        forall|i: int|
            0 <= i < t.pairs().len() && wins(t.pairs(), i) ==> #[trigger] converts(
                t.pairs()[i].1,
                m[key_text(t.pairs()[i].0)],
            ),
{
    lemma_converts_to_map(t, m);
}

/// A list-shaped table read as a sub-table is keyed `"1"` .. `"n"`: the
/// texts of its keys are exactly the decimal texts of `1..=n`.
pub proof fn law_list_read_as_indexed_table(t: LuaTableSnapshot)
    requires
        list_shape(t.pairs()),
    ensures
        key_texts(t.pairs()) == Set::new(
            |x: Seq<char>| exists|k: int| 1 <= k <= t.pairs().len() && x == int_text(k),
        ),
        forall|i: int| 0 <= i < t.pairs().len() ==> #[trigger] wins(t.pairs(), i),
{
    let ps = t.pairs();
    lemma_list_keys_cover(ps);
    let target = Set::new(|x: Seq<char>| exists|k: int| 1 <= k <= ps.len() && x == int_text(k));
    assert forall|x: Seq<char>| key_texts(ps).contains(x) implies target.contains(x) by {
        let i = choose|i: int| 0 <= i < ps.len() && key_text(ps[i].0) == x;
        assert(ps[i] == ps[i]);
        let k = ps[i].0->Integer_0 as int;
        assert(1 <= k <= ps.len() && x == int_text(k));
    }
    assert forall|x: Seq<char>| target.contains(x) implies key_texts(ps).contains(x) by {
        let k = choose|k: int| 1 <= k <= ps.len() && x == int_text(k);
        assert(has_int_key(ps, k));
        let i = choose|i: int| 0 <= i < ps.len() && ps[i].0->Integer_0 == k;
        assert(ps[i] == ps[i]);
        assert(key_text(ps[i].0) == x);
    }
    assert(key_texts(ps) =~= target);
    assert forall|i: int| 0 <= i < ps.len() implies #[trigger] wins(ps, i) by {
        assert(ps[i] == ps[i]);
        assert forall|j: int| i < j < ps.len() implies !(ps[j].0 is Integer && ps[j].0->Integer_0
            == ps[i].0->Integer_0) by {
            assert(ps[j] == ps[j]);
        }
    }
}

} // verus!
