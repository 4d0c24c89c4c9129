//! A stand-in for the engine's state, for checking the whole path from the
//! manager through Luau back into Rust before the real engine exists.
use vstd::prelude::*;

use std::collections::HashMap;

verus! {

/// The calls that scripts recorded, by action: the values each recorded.
pub uninterp spec fn recorded(m: HashMap<String, Vec<String>>) -> Map<Seq<char>, Vec<String>>;

/// `HashMap::new`: an empty map.
#[verifier::external_body]
fn calls_new() -> (r: HashMap<String, Vec<String>>)
    ensures
        recorded(r).dom().is_empty(),
{
    HashMap::new()
}

/// `HashMap::remove`: takes the list under `k` out.
#[verifier::external_body]
fn calls_remove(m: &mut HashMap<String, Vec<String>>, k: &str) -> (r: Option<Vec<String>>)
    ensures
        recorded(*final(m)) == recorded(*old(m)).remove(k@),
        r == recorded(*old(m)).get(k@),
{
    m.remove(k)
}

/// `HashMap::insert`: puts `v` under `k` (a replaced list is dropped).
#[verifier::external_body]
fn calls_insert(m: &mut HashMap<String, Vec<String>>, k: String, v: Vec<String>)
    ensures
        recorded(*final(m)) == recorded(*old(m)).insert(k@, v),
{
    m.insert(k, v);
}

/// A fake engine state that scripts write to.
#[derive(Debug)]
pub struct TestState {
    /// The calls received from scripts: for each action, the values passed.
    pub calls: HashMap<String, Vec<String>>,
    /// A counter that scripts can increment.
    pub counter: i64,
}

/// The values recorded under `action`, oldest first.
pub open spec fn recorded_values(m: Map<Seq<char>, Vec<String>>, action: Seq<char>) -> Seq<String> {
    if m.contains_key(action) {
        m[action]@
    } else {
        Seq::empty()
    }
}

impl Default for TestState {
    fn default() -> (r: TestState)
        ensures
            recorded(r.calls).dom().is_empty(),
            r.counter == 0,
    {
        TestState { calls: calls_new(), counter: 0 }
    }
}

impl TestState {
    /// Records that a script called `action` with `value`.
    pub fn record(&mut self, action: String, value: String)
        ensures
            recorded_values(recorded(final(self).calls), action@) == recorded_values(
                recorded(old(self).calls),
                action@,
            ).push(value),
            forall|a: Seq<char>|
                a != action@ ==> #[trigger] recorded(final(self).calls).get(a) == recorded(
                    old(self).calls,
                ).get(a),
            recorded(final(self).calls).contains_key(action@),
            final(self).counter == old(self).counter,
    {
        let mut list = match calls_remove(&mut self.calls, action.as_str()) {
            Some(l) => l,
            None => Vec::new(),
        };
        list.push(value);
        calls_insert(&mut self.calls, action, list);
    }

    /// Adds one to the counter.
    pub fn increment(&mut self)
        requires
            old(self).counter < i64::MAX,
        ensures
            final(self).counter == old(self).counter + 1,
            recorded(final(self).calls) == recorded(old(self).calls),
    {
        self.counter = self.counter + 1;
    }
}

} // verus!
