//! The values that a Luau sub-table holds once it has left the VM, and the
//! string-keyed table that carries them.
use vstd::prelude::*;

use crate::decimal::{decimal_text, int_text};

verus! {

/// Every primitive value that can appear inside a Luau sub-table.
///
/// This is the common language between the scripting host and the engine:
/// the host converts Luau values into `LuaTableValue`s, and the engine never
/// sees a VM value.
#[derive(Debug)]
pub enum LuaTableValue {
    String(String),
    Int(i64),
    /// A Luau number, held as the IEEE-754 bit pattern of its `f64`
    /// (`f64::to_bits` / `f64::from_bits`).
    Float(u64),
    Bool(bool),
    List(Vec<LuaTableValue>),
    /// Nested Luau table: used for sub-structs that implement `FromLuaTable`.
    Table(TableMap),
}

/// A table keyed by strings, each key present at most once.
///
/// Its view is the map from each key's characters to its value.
#[derive(Debug)]
pub struct TableMap {
    entries: Vec<(String, LuaTableValue)>,
}

/// The map that a list of `(key, value)` entries describes, a later entry
/// winning over an earlier one with the same key.
pub open spec fn entries_to_map(s: Seq<(String, LuaTableValue)>) -> Map<Seq<char>, LuaTableValue>
    decreases s.len(),
{
    if s.len() == 0 {
        Map::empty()
    } else {
        entries_to_map(s.drop_last()).insert(s.last().0@, s.last().1)
    }
}

/// No two entries share a key.
pub open spec fn keys_distinct(s: Seq<(String, LuaTableValue)>) -> bool {
    forall|i: int, j: int| 0 <= i < j < s.len() ==> s[i].0@ != s[j].0@
}

proof fn lemma_entries_to_map(s: Seq<(String, LuaTableValue)>)
    requires
        keys_distinct(s),
    ensures
        entries_to_map(s).dom().finite(),
        entries_to_map(s).dom().len() == s.len(),
        forall|k: Seq<char>|
            #[trigger] entries_to_map(s).contains_key(k) <==> exists|i: int|
                0 <= i < s.len() && s[i].0@ == k,
        forall|i: int| 0 <= i < s.len() ==> #[trigger] entries_to_map(s)[s[i].0@] == s[i].1,
    decreases s.len(),
{
    if s.len() > 0 {
        let p = s.drop_last();
        assert(keys_distinct(p));
        lemma_entries_to_map(p);
        let last = s.last().0@;
        assert(!entries_to_map(p).contains_key(last)) by {
            if entries_to_map(p).contains_key(last) {
                let i = choose|i: int| 0 <= i < p.len() && p[i].0@ == last;
                assert(s[i].0@ == s[s.len() - 1].0@);
            }
        }
        assert forall|k: Seq<char>|
            #[trigger] entries_to_map(s).contains_key(k) <==> exists|i: int|
                0 <= i < s.len() && s[i].0@ == k by {
            if k == last {
                assert(s[s.len() - 1].0@ == k);
            } else if entries_to_map(s).contains_key(k) {
                let i = choose|i: int| 0 <= i < p.len() && p[i].0@ == k;
                assert(s[i].0@ == k);
            } else {
                if exists|i: int| 0 <= i < s.len() && s[i].0@ == k {
                    let i = choose|i: int| 0 <= i < s.len() && s[i].0@ == k;
                    assert(p[i].0@ == k);
                }
            }
        }
        assert forall|i: int| 0 <= i < s.len() implies #[trigger] entries_to_map(s)[s[i].0@]
            == s[i].1 by {
            if i < s.len() - 1 {
                assert(p[i] == s[i]);
            }
        }
    }
}

impl TableMap {
    #[verifier::type_invariant]
    spec fn keys_unique(self) -> bool {
        keys_distinct(self.entries@)
    }

}

impl View for TableMap {
    type V = Map<Seq<char>, LuaTableValue>;

    closed spec fn view(&self) -> Map<Seq<char>, LuaTableValue> {
        entries_to_map(self.entries@)
    }
}

impl TableMap {
    /// An empty table.
    pub fn new() -> (r: TableMap)
        ensures
            r@ == Map::<Seq<char>, LuaTableValue>::empty(),
    {
        TableMap { entries: Vec::new() }
    }

    fn find(&self, key: &String) -> (r: Option<usize>)
        ensures
            match r {
                Some(i) => i < self.entries@.len() && self.entries@[i as int].0@ == key@,
                None => forall|i: int|
                    0 <= i < self.entries@.len() ==> self.entries@[i].0@ != key@,
            },
    {
        let mut i: usize = 0;
        while i < self.entries.len()
            invariant
                i <= self.entries@.len(),
                forall|j: int| 0 <= j < i ==> self.entries@[j].0@ != key@,
            decreases self.entries@.len() - i,
        {
            if self.entries[i].0 == *key {
                return Some(i);
            }
            i = i + 1;
        }
        None
    }

    /// The number of keys.
    pub fn len(&self) -> (r: usize)
        ensures
            self@.dom().finite(),
            r == self@.len(),
    {
        proof {
            use_type_invariant(self);
            lemma_entries_to_map(self.entries@);
        }
        self.entries.len()
    }

    /// Whether the table has no key.
    pub fn is_empty(&self) -> (r: bool)
        ensures
            r == (self@.len() == 0),
    {
        self.len() == 0
    }

    /// Whether `key` is present.
    pub fn contains_key(&self, key: &str) -> (r: bool)
        ensures
            r == self@.contains_key(key@),
    {
        proof {
            use_type_invariant(self);
            lemma_entries_to_map(self.entries@);
        }
        let k = key.to_owned();
        match self.find(&k) {
            Some(_) => true,
            None => false,
        }
    }

    /// The value under `key`, if any.
    pub fn get(&self, key: &str) -> (r: Option<&LuaTableValue>)
        ensures
            match r {
                Some(v) => self@.contains_key(key@) && *v == self@[key@],
                None => !self@.contains_key(key@),
            },
    {
        proof {
            use_type_invariant(self);
            lemma_entries_to_map(self.entries@);
        }
        let k = key.to_owned();
        match self.find(&k) {
            Some(i) => Some(&self.entries[i].1),
            None => None,
        }
    }

    /// Inserts `value` under `key`, handing back the value it replaces.
    pub fn insert(&mut self, key: String, value: LuaTableValue) -> (r: Option<LuaTableValue>)
        ensures
            final(self)@ == old(self)@.insert(key@, value),
            match r {
                Some(v) => old(self)@.contains_key(key@) && v == old(self)@[key@],
                None => !old(self)@.contains_key(key@),
            },
    {
        proof {
            use_type_invariant(&*self);
            lemma_entries_to_map(self.entries@);
        }
        let ghost old_entries = self.entries@;
        match self.find(&key) {
            Some(i) => {
                let ghost k = key@;
                let mut entries: Vec<(String, LuaTableValue)> = Vec::new();
                std::mem::swap(&mut entries, &mut self.entries);
                let removed = entries.remove(i);
                entries.insert(i, (key, value));
                proof {
                    assert(entries@ == old_entries.update(i as int, (entries@[i as int].0, value)));
                    assert(keys_distinct(entries@)) by {
                        assert forall|a: int, b: int|
                            0 <= a < b < entries@.len() implies entries@[a].0@
                            != entries@[b].0@ by {
                            if a != i && b != i {
                                assert(old_entries[a] == entries@[a]);
                                assert(old_entries[b] == entries@[b]);
                            } else if a == i {
                                assert(old_entries[b] == entries@[b]);
                            } else {
                                assert(old_entries[a] == entries@[a]);
                            }
                        }
                    }
                    lemma_entries_to_map(entries@);
                    assert(entries_to_map(entries@) =~= entries_to_map(old_entries).insert(
                        k,
                        value,
                    )) by {
                        assert forall|kk: Seq<char>| #[trigger]
                            entries_to_map(entries@).contains_key(kk)
                                == entries_to_map(old_entries).insert(k, value).contains_key(
                                kk,
                            ) by {
                            if entries_to_map(entries@).contains_key(kk) {
                                let a = choose|a: int|
                                    0 <= a < entries@.len() && entries@[a].0@ == kk;
                                if a != i {
                                    assert(old_entries[a] == entries@[a]);
                                }
                            }
                            if kk != k && entries_to_map(old_entries).contains_key(kk) {
                                let a = choose|a: int|
                                    0 <= a < old_entries.len() && old_entries[a].0@ == kk;
                                assert(old_entries[a] == entries@[a]);
                            }
                        }
                        assert forall|kk: Seq<char>| #[trigger]
                            entries_to_map(entries@).contains_key(kk) implies entries_to_map(
                            entries@,
                        )[kk] == entries_to_map(old_entries).insert(k, value)[kk] by {
                            let a = choose|a: int|
                                0 <= a < entries@.len() && entries@[a].0@ == kk;
                            if a != i {
                                assert(old_entries[a] == entries@[a]);
                            }
                        }
                    }
                }
                self.entries = entries;
                Some(removed.1)
            },
            None => {
                let mut entries: Vec<(String, LuaTableValue)> = Vec::new();
                std::mem::swap(&mut entries, &mut self.entries);
                entries.push((key, value));
                proof {
                    assert(entries@.drop_last() == old_entries);
                }
                self.entries = entries;
                None
            },
        }
    }

    /// Removes `key`, handing back its value.
    pub fn remove(&mut self, key: &str) -> (r: Option<LuaTableValue>)
        ensures
            final(self)@ == old(self)@.remove(key@),
            match r {
                Some(v) => old(self)@.contains_key(key@) && v == old(self)@[key@],
                None => !old(self)@.contains_key(key@),
            },
    {
        proof {
            use_type_invariant(&*self);
            lemma_entries_to_map(self.entries@);
        }
        let ghost old_entries = self.entries@;
        let k = key.to_owned();
        match self.find(&k) {
            Some(i) => {
                let mut entries: Vec<(String, LuaTableValue)> = Vec::new();
                std::mem::swap(&mut entries, &mut self.entries);
                let removed = entries.remove(i);
                proof {
                    assert(entries@ == old_entries.remove(i as int));
                    assert(keys_distinct(entries@)) by {
                        assert forall|a: int, b: int|
                            0 <= a < b < entries@.len() implies entries@[a].0@
                            != entries@[b].0@ by {
                            let oa = if a < i {
                                a
                            } else {
                                a + 1
                            };
                            let ob = if b < i {
                                b
                            } else {
                                b + 1
                            };
                            assert(entries@[a] == old_entries[oa]);
                            assert(entries@[b] == old_entries[ob]);
                        }
                    }
                    lemma_entries_to_map(entries@);
                    assert(entries_to_map(entries@) =~= entries_to_map(old_entries).remove(key@))
                        by {
                        assert forall|kk: Seq<char>| #[trigger]
                            entries_to_map(entries@).contains_key(kk)
                                == entries_to_map(old_entries).remove(key@).contains_key(kk) by {
                            if entries_to_map(entries@).contains_key(kk) {
                                let a = choose|a: int|
                                    0 <= a < entries@.len() && entries@[a].0@ == kk;
                                let oa = if a < i {
                                    a
                                } else {
                                    a + 1
                                };
                                assert(entries@[a] == old_entries[oa]);
                            }
                            if kk != key@ && entries_to_map(old_entries).contains_key(kk) {
                                let a = choose|a: int|
                                    0 <= a < old_entries.len() && old_entries[a].0@ == kk;
                                let na = if a < i {
                                    a
                                } else {
                                    a - 1
                                };
                                assert(entries@[na] == old_entries[a]);
                            }
                        }
                        assert forall|kk: Seq<char>| #[trigger]
                            entries_to_map(entries@).contains_key(kk) implies entries_to_map(
                            entries@,
                        )[kk] == entries_to_map(old_entries).remove(key@)[kk] by {
                            let a = choose|a: int|
                                0 <= a < entries@.len() && entries@[a].0@ == kk;
                            let oa = if a < i {
                                a
                            } else {
                                a + 1
                            };
                            assert(entries@[a] == old_entries[oa]);
                        }
                    }
                }
                self.entries = entries;
                Some(removed.1)
            },
            None => {
                proof {
                    assert(entries_to_map(old_entries) =~= entries_to_map(old_entries).remove(
                        key@,
                    ));
                }
                None
            },
        }
    }
}

/// The `Debug` text of a string: the text in double quotes, with the
/// characters that `Debug` escapes escaped.
pub uninterp spec fn str_debug(s: Seq<char>) -> Seq<char>;

/// `<str as Debug>::fmt`, through `format!("{:?}", s)`.
#[verifier::external_body]
fn debug_quoted(s: &str) -> (r: String)
    ensures
        r@ == str_debug(s@),
{
    format!("{:?}", s)
}

/// How a value reads in messages, as its `Debug` form: `String("G")`,
/// `Int(42)`, `Bool(true)`, `List([...])`, `Map({"k": ...})` (the entries in
/// the table's order). A number reads `Float`, without its value.
pub closed spec fn value_debug(v: LuaTableValue) -> Seq<char>
    decreases v,
{
    match v {
        LuaTableValue::String(s) => "String("@ + str_debug(s@) + ")"@,
        LuaTableValue::Int(i) => "Int("@ + int_text(i as int) + ")"@,
        LuaTableValue::Float(_) => "Float"@,
        LuaTableValue::Bool(b) => if b {
            "Bool(true)"@
        } else {
            "Bool(false)"@
        },
        LuaTableValue::List(items) => "List(["@ + items_debug(items@) + "])"@,
        LuaTableValue::Table(t) => "Map({"@ + entries_debug(t.entries@) + "})"@,
    }
}

/// The `Debug` forms of list items, separated by `, `.
pub closed spec fn items_debug(s: Seq<LuaTableValue>) -> Seq<char>
    decreases s,
{
    if s.len() == 0 {
        Seq::empty()
    } else if s.len() == 1 {
        value_debug(s[0])
    } else {
        items_debug(s.drop_last()) + ", "@ + value_debug(s.last())
    }
}

/// The entries of a table as `Debug` shows them, `"key": value`, separated
/// by `, `.
pub closed spec fn entries_debug(s: Seq<(String, LuaTableValue)>) -> Seq<char>
    decreases s,
{
    if s.len() == 0 {
        Seq::empty()
    } else if s.len() == 1 {
        str_debug(s[0].0@) + ": "@ + value_debug(s[0].1)
    } else {
        entries_debug(s.drop_last()) + ", "@ + str_debug(s.last().0@) + ": "@ + value_debug(
            s.last().1,
        )
    }
}

/// The `Debug` form of a value (`value_debug`).
pub fn debug_text(v: &LuaTableValue) -> (r: String)
    ensures
        r@ == value_debug(*v),
    decreases *v,
{
    match v {
        LuaTableValue::String(s) => {
            let mut r = String::from_str("String(");
            let q = debug_quoted(s.as_str());
            r.append(q.as_str());
            r.append(")");
            r
        },
        LuaTableValue::Int(i) => {
            let mut r = String::from_str("Int(");
            let d = decimal_text(*i);
            r.append(d.as_str());
            r.append(")");
            r
        },
        LuaTableValue::Float(_) => String::from_str("Float"),
        LuaTableValue::Bool(b) => if *b {
            String::from_str("Bool(true)")
        } else {
            String::from_str("Bool(false)")
        },
        LuaTableValue::List(items) => {
            let mut r = String::from_str("List([");
            let mut i: usize = 0;
            while i < items.len()
                invariant
                    *v == LuaTableValue::List(*items),
                    i <= items@.len(),
                    r@ == "List(["@ + items_debug(items@.take(i as int)),
                decreases items@.len() - i,
            {
                proof {
                    assert(decreases_to!(*v => (*v)->List_0));
                    assert((*v)->List_0 == *items);
                    assert(decreases_to!(*items => items@));
                    assert(decreases_to!(items@ => items@[i as int]));
                    assert(decreases_to!(*v => items@[i as int]));
                }
                let d = debug_text(&items[i]);
                proof {
                    let t = items@.take(i + 1);
                    assert(t.drop_last() =~= items@.take(i as int));
                    assert(t.last() == items@[i as int]);
                    if i == 0 {
                        assert(t.len() == 1);
                        assert(items@.take(0) =~= Seq::<LuaTableValue>::empty());
                    }
                }
                if i > 0 {
                    r.append(", ");
                }
                r.append(d.as_str());
                proof {
                    let t = items@.take(i + 1);
                    if i == 0 {
                        assert(r@ =~= "List(["@ + value_debug(t[0]));
                    } else {
                        assert(r@ =~= "List(["@ + (items_debug(t.drop_last()) + ", "@ + value_debug(
                            t.last(),
                        )));
                    }
                }
                i = i + 1;
            }
            r.append("])");
            proof {
                assert(items@.take(items@.len() as int) =~= items@);
                assert(r@ =~= "List(["@ + items_debug(items@) + "])"@);
            }
            r
        },
        LuaTableValue::Table(t) => {
            let mut r = String::from_str("Map({");
            let entries = &t.entries;
            let mut i: usize = 0;
            while i < entries.len()
                invariant
                    *v == LuaTableValue::Table(*t),
                    entries == &t.entries,
                    i <= entries@.len(),
                    r@ == "Map({"@ + entries_debug(entries@.take(i as int)),
                decreases entries@.len() - i,
            {
                let k = debug_quoted(entries[i].0.as_str());
                proof {
                    assert(decreases_to!(*v => (*v)->Table_0));
                    assert((*v)->Table_0 == *t);
                    assert(decreases_to!(*t => t.entries));
                    assert(decreases_to!(t.entries => t.entries@));
                    assert(decreases_to!(t.entries@ => t.entries@[i as int]));
                    assert(decreases_to!(t.entries@[i as int] => t.entries@[i as int].1));
                    assert(decreases_to!(*v => entries@[i as int].1));
                }
                let d = debug_text(&entries[i].1);
                proof {
                    let s = entries@.take(i + 1);
                    assert(s.drop_last() =~= entries@.take(i as int));
                    assert(s.last() == entries@[i as int]);
                    if i == 0 {
                        assert(s.len() == 1);
                        assert(entries@.take(0) =~= Seq::<(String, LuaTableValue)>::empty());
                    }
                }
                if i > 0 {
                    r.append(", ");
                }
                r.append(k.as_str());
                r.append(": ");
                r.append(d.as_str());
                proof {
                    let s = entries@.take(i + 1);
                    if i == 0 {
                        assert(r@ =~= "Map({"@ + (str_debug(s[0].0@) + ": "@ + value_debug(s[0].1)));
                    } else {
                        assert(r@ =~= "Map({"@ + (entries_debug(s.drop_last()) + ", "@ + str_debug(
                            s.last().0@,
                        ) + ": "@ + value_debug(s.last().1)));
                    }
                }
                i = i + 1;
            }
            r.append("})");
            proof {
                assert(entries@.take(entries@.len() as int) =~= entries@);
                assert(r@ =~= "Map({"@ + entries_debug(t.entries@) + "})"@);
            }
            r
        },
    }
}

} // verus!
