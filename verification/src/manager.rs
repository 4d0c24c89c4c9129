//! The decisions of the script manager: which scripts are registered, which
//! environments are cached, where loading a script starts, and what a call
//! or a sub-table read comes to.
//!
//! The host owns the Luau VM. It reads sources, runs them, calls functions
//! and reads values; the manager decides what to do with each step's result.
use vstd::prelude::*;

use crate::cache::{evicts_at_most_one, released_from, LuaTableCache};
use crate::call_result::{CallResult, LuaScriptError};
use crate::convert::{
    conversion_error, converts_to_map, convertible, extract_sub_table, lua_type_name, not_a_table_message, ScriptValue,
};
use crate::from_table::FromLuaTable;
use crate::lua_table::TableMap;
use crate::manifest::ScriptEntry;
use crate::registry::{registered_meta, ScriptMeta, ScriptRegistry};

verus! {

/// "script 'ID' not found in registry"
pub open spec fn not_registered_message(id: Seq<char>) -> Seq<char> {
    "script '"@ + id + "' not found in registry"@
}

/// The registry after registering `scripts` in order.
pub open spec fn after_registering(
    reg: Map<Seq<char>, ScriptMeta>,
    scripts: Seq<ScriptEntry>,
) -> Map<Seq<char>, ScriptMeta>
    decreases scripts.len(),
{
    if scripts.len() == 0 {
        reg
    } else {
        let before = after_registering(reg, scripts.drop_last());
        let e = scripts.last();
        before.insert(e.id@, registered_meta(before.get(e.id@), e.path))
    }
}

/// The cache after registering `scripts` in order: a script registered again
/// leaves the cache, so that its new source runs on its next access.
pub open spec fn cache_after_registering(
    cache: Map<Seq<char>, u64>,
    reg: Map<Seq<char>, ScriptMeta>,
    scripts: Seq<ScriptEntry>,
) -> Map<Seq<char>, u64>
    decreases scripts.len(),
{
    if scripts.len() == 0 {
        cache
    } else {
        let c = cache_after_registering(cache, reg, scripts.drop_last());
        let before = after_registering(reg, scripts.drop_last());
        let id = scripts.last().id@;
        if before.contains_key(id) {
            c.remove(id)
        } else {
            c
        }
    }
}

/// The handles that leave the cache while `scripts` are registered in
/// order: that of each script registered again while its environment is
/// cached.
pub open spec fn released_by_registering(
    cache: Map<Seq<char>, u64>,
    reg: Map<Seq<char>, ScriptMeta>,
    scripts: Seq<ScriptEntry>,
) -> Seq<u64>
    decreases scripts.len(),
{
    if scripts.len() == 0 {
        Seq::empty()
    } else {
        let rest = scripts.drop_last();
        let released = released_by_registering(cache, reg, rest);
        let c = cache_after_registering(cache, reg, rest);
        let id = scripts.last().id@;
        if after_registering(reg, rest).contains_key(id) && c.contains_key(id) {
            released.push(c[id])
        } else {
            released
        }
    }
}

/// Some script's environment is cached under handle `h`.
pub open spec fn holds_handle(cache: Map<Seq<char>, u64>, h: u64) -> bool {
    exists|k: Seq<char>| #[trigger] cache.contains_key(k) && cache[k] == h
}

/// How many of `scripts` declare `id`.
pub open spec fn declarations(scripts: Seq<ScriptEntry>, id: Seq<char>) -> nat
    decreases scripts.len(),
{
    if scripts.len() == 0 {
        0
    } else {
        declarations(scripts.drop_last(), id) + if scripts.last().id@ == id {
            1nat
        } else {
            0nat
        }
    }
}

/// Registering `scripts` cannot overflow the version counter of a script
/// that is already registered: its version plus the number of its
/// declarations stays below `u64::MAX`.
pub open spec fn versions_below(reg: Map<Seq<char>, ScriptMeta>, scripts: Seq<ScriptEntry>) -> bool {
    forall|i: int|
        0 <= i < scripts.len() && #[trigger] reg.contains_key(scripts[i].id@) ==> reg[scripts[i].id@].version
            + declarations(scripts, scripts[i].id@) < u64::MAX
}

/// The declarations of `id` in a prefix of `scripts` are at most those in
/// all of them.
proof fn lemma_declarations_prefix(scripts: Seq<ScriptEntry>, i: int, id: Seq<char>)
    requires
        0 <= i <= scripts.len(),
    ensures
        declarations(scripts.take(i), id) <= declarations(scripts, id),
    decreases scripts.len() - i,
{
    if i == scripts.len() {
        assert(scripts.take(i) =~= scripts);
    } else {
        lemma_declarations_prefix(scripts, i + 1, id);
        assert(scripts.take(i + 1).drop_last() =~= scripts.take(i));
    }
}

/// `r` is where loading `id` starts, given the cached environments and the
/// registered scripts: its cached environment; else, if it is registered, its
/// source path; else the error that it is not registered.
pub open spec fn located(
    cached: Map<Seq<char>, u64>,
    scripts: Map<Seq<char>, ScriptMeta>,
    id: Seq<char>,
    r: ModuleSource,
) -> bool {
    match cached.get(id) {
        Some(h) => r == ModuleSource::Cached(h),
        None => if scripts.contains_key(id) {
            r == ModuleSource::Load(scripts[id].path)
        } else {
            r matches ModuleSource::Missing(m) && m@ == not_registered_message(id)
        },
    }
}

/// The registered scripts after invalidating `id`: its version is one more,
/// if it is registered.
pub open spec fn invalidated(scripts: Map<Seq<char>, ScriptMeta>, id: Seq<char>) -> Map<
    Seq<char>,
    ScriptMeta,
> {
    if scripts.contains_key(id) {
        scripts.insert(
            id,
            ScriptMeta { path: scripts[id].path, version: (scripts[id].version + 1) as u64 },
        )
    } else {
        scripts
    }
}

/// Where loading a script starts.
#[derive(Debug)]
pub enum ModuleSource {
    /// Its environment is cached under this handle: nothing runs.
    Cached(u64),
    /// It is registered with this source path: read it, run it, store it.
    Load(String),
    /// It is not registered: the load fails with this message.
    Missing(String),
}

/// What reading a named sub-table of a script's environment came to.
#[derive(Debug)]
pub enum TableRead<T> {
    /// The sub-table, converted.
    Found(T),
    /// The environment has nothing under the name.
    Absent,
    /// The sub-table was read, and its conversion to `T` refused it.
    ConversionFailed(String),
    /// The value under the name is not a convertible table.
    ReadFailed(String),
}

/// What the function slot of a script's environment holds, as far as
/// calling it goes.
#[derive(Debug)]
pub enum FunctionSlot {
    /// A function: call it.
    Function,
    /// Nothing.
    Nil,
    /// A value of another Luau type, by its type name.
    Other(String),
}

/// The registered scripts and the cached environments.
///
/// The engine reaches Luau only through the manager; a script's global
/// scope runs once per load, later accesses find its cached environment.
pub struct LuaScriptManager {
    registry: ScriptRegistry,
    cache: LuaTableCache,
}

impl LuaScriptManager {
    /// The registered scripts.
    pub closed spec fn scripts(self) -> Map<Seq<char>, ScriptMeta> {
        self.registry@
    }

    /// The cached environments, by script id.
    pub closed spec fn cached(self) -> Map<Seq<char>, u64> {
        self.cache@
    }

    /// The capacity of the environment cache.
    pub closed spec fn cache_capacity(self) -> nat {
        self.cache.capacity()
    }

    /// Whether the window segment of the environment cache has room for a
    /// new entry.
    pub closed spec fn window_has_room(self) -> bool {
        self.cache.window_len() < self.cache.window_capacity()
    }

    /// A manager with no script registered, caching in `cache`.
    pub fn new(cache: LuaTableCache) -> (r: LuaScriptManager)
        ensures
            r.scripts() == Map::<Seq<char>, ScriptMeta>::empty(),
            r.cached() == cache@,
            r.cache_capacity() == cache.capacity(),
            r.window_has_room() == (cache.window_len() < cache.window_capacity()),
    {
        LuaScriptManager { registry: ScriptRegistry::new(), cache }
    }

    /// Registers the scripts of a package, in order, their paths already
    /// resolved against the package's directory. A script registered again
    /// wins over the earlier registration and leaves the cache. Returns the
    /// handles of the environments that left the cache.
    pub fn register_scripts(&mut self, scripts: &Vec<ScriptEntry>) -> (released: Vec<u64>)
        requires
            versions_below(old(self).scripts(), scripts@),
        ensures
            final(self).scripts() == after_registering(old(self).scripts(), scripts@),
            final(self).cached() == cache_after_registering(
                old(self).cached(),
                old(self).scripts(),
                scripts@,
            ),
            final(self).cache_capacity() == old(self).cache_capacity(),
            released@ == released_by_registering(old(self).cached(), old(self).scripts(), scripts@),
            forall|i: int|
                0 <= i < released@.len() ==> holds_handle(old(self).cached(), #[trigger] released@[i]),
    {
        let ghost reg0 = self.registry@;
        let ghost cache0 = self.cache@;
        let mut released: Vec<u64> = Vec::new();
        let mut i: usize = 0;
        while i < scripts.len()
            invariant
                i <= scripts@.len(),
                versions_below(reg0, scripts@),
                self.registry@ == after_registering(reg0, scripts@.take(i as int)),
                self.cache@ == cache_after_registering(cache0, reg0, scripts@.take(i as int)),
                self.cache.capacity() == old(self).cache.capacity(),
                forall|k: Seq<char>|
                    #[trigger] self.cache@.contains_key(k) ==> cache0.contains_key(k)
                        && self.cache@[k] == cache0[k],
                forall|j: int| 0 <= j < released@.len() ==> holds_handle(cache0, #[trigger] released@[j]),
                released@ == released_by_registering(cache0, reg0, scripts@.take(i as int)),
            decreases scripts@.len() - i,
        {
            let ghost prefix = scripts@.take(i as int);
            let ghost next = scripts@.take(i + 1);
            proof {
                assert(next.drop_last() == prefix);
                assert(next.last() == scripts@[i as int]);
            }
            let id = scripts[i].id.clone();
            let path = scripts[i].path.clone();
            let ghost old_reg = self.registry@;
            let ghost old_cache = self.cache@;
            if self.registry.get(id.as_str()).is_some() {
                match self.cache.remove(id.as_str()) {
                    Some(h) => {
                        proof {
                            assert(cache0.contains_key(id@) && cache0[id@] == h);
                        }
                        released.push(h);
                        proof {
                            assert forall|j: int| 0 <= j < released@.len() implies holds_handle(
                                cache0,
                                #[trigger] released@[j],
                            ) by {
                                if j == released@.len() - 1 {
                                    assert(cache0.contains_key(id@) && cache0[id@] == released@[j]);
                                }
                            }
                        }
                    },
                    None => {},
                }
            }
            proof {
                assert(scripts@[i as int].id@ == id@);
                lemma_declarations_prefix(scripts@, i + 1, id@);
                assert(next.drop_last() =~= prefix);
                assert(declarations(next, id@) == declarations(prefix, id@) + 1);
                if reg0.contains_key(id@) {
                    assert(reg0[scripts@[i as int].id@].version + declarations(
                        scripts@,
                        scripts@[i as int].id@,
                    ) < u64::MAX);
                }
                assert(prefix.len() == i);
                crate::laws::law_last_registration_wins(reg0, prefix, id@);
                if old_reg.contains_key(id@) {
                    if declarations(prefix, id@) == 0 {
                        assert(old_reg.get(id@) == reg0.get(id@));
                        assert(reg0.contains_key(id@));
                        assert(old_reg[id@] == reg0[id@]);
                    } else if reg0.contains_key(id@) {
                        assert(old_reg[id@].version == reg0[id@].version + declarations(prefix, id@));
                    } else {
                        assert(old_reg[id@].version == declarations(prefix, id@) - 1);
                        crate::laws::lemma_declarations_bound(prefix, id@);
                    }
                    assert(old_reg[id@].version < u64::MAX);
                }
            }
            self.registry.register(id, path);
            proof {
                assert(self.registry@ == after_registering(reg0, next));
                assert(self.cache@ == cache_after_registering(cache0, reg0, next));
                assert(released@ == released_by_registering(cache0, reg0, next));
            }
            i = i + 1;
        }
        proof {
            assert(scripts@.take(scripts@.len() as int) == scripts@);
        }
        released
    }

    /// Takes `id` out of the cache, so that it runs again on its next
    /// access, and bumps its version if it is registered. Handlers it
    /// subscribed stay subscribed. Returns the handle of the environment that
    /// left the cache.
    pub fn invalidate(&mut self, id: &str) -> (released: Option<u64>)
        requires
            old(self).scripts().contains_key(id@) ==> old(self).scripts()[id@].version < u64::MAX,
        ensures
            final(self).cached() == old(self).cached().remove(id@),
            released == old(self).cached().get(id@),
            final(self).scripts() == invalidated(old(self).scripts(), id@),
            final(self).cache_capacity() == old(self).cache_capacity(),
    {
        let released = self.cache.remove(id);
        match self.registry.get_mut(id) {
            Some(meta) => {
                meta.version = meta.version + 1;
            },
            None => {},
        }
        released
    }

    /// The version of `id`, if it is registered.
    pub fn version_of(&self, id: &str) -> (r: Option<u64>)
        ensures
            match r {
                Some(v) => self.scripts().contains_key(id@) && v == self.scripts()[id@].version,
                None => !self.scripts().contains_key(id@),
            },
    {
        match self.registry.get(id) {
            Some(meta) => Some(meta.version),
            None => None,
        }
    }

    /// The number of registered scripts.
    pub fn registry_len(&self) -> (r: usize)
        ensures
            r == self.scripts().len(),
    {
        self.registry.len()
    }

    /// The number of cached environments.
    pub fn cache_len(&self) -> (r: usize)
        ensures
            r == self.cached().len(),
    {
        self.cache.len()
    }

    /// Whether the environment of `id` is cached.
    pub fn is_cached(&self, id: &str) -> (r: bool)
        ensures
            r == self.cached().contains_key(id@),
    {
        self.cache.contains(id)
    }

    /// Where loading `id` starts (counting the access in the cache's
    /// frequency sketch): its cached environment; else, if it is registered,
    /// its source path; else the error that it is not registered.
    pub fn locate_module(&mut self, id: &str) -> (r: ModuleSource)
        ensures
            final(self).cached() == old(self).cached(),
            final(self).scripts() == old(self).scripts(),
            final(self).cache_capacity() == old(self).cache_capacity(),
            located(old(self).cached(), old(self).scripts(), id@, r),
    {
        match self.cache.get(id) {
            Some(h) => ModuleSource::Cached(h),
            None => match self.registry.get(id) {
                Some(meta) => ModuleSource::Load(meta.path.clone()),
                None => {
                    let mut m = String::from_str("script '");
                    m.append(id);
                    m.append("' not found in registry");
                    ModuleSource::Missing(m)
                },
            },
        }
    }

    /// Caches the environment that running `id`'s global scope produced,
    /// under `handle`. Nothing else leaves the cache when `id` was cached or
    /// the cache's window has room; otherwise at most one other environment
    /// is evicted. Returns the handles of the environments that left the
    /// cache.
    pub fn store_module(&mut self, id: &str, handle: u64) -> (released: Vec<u64>)
        ensures
            final(self).cached().contains_key(id@),
            final(self).cached()[id@] == handle,
            old(self).cached().contains_key(id@) || old(self).window_has_room()
                ==> final(self).cached() == old(self).cached().insert(id@, handle),
            evicts_at_most_one(old(self).cached(), final(self).cached(), id@),
            forall|k: Seq<char>|
                #[trigger] final(self).cached().contains_key(k) && k != id@ ==> old(
                    self,
                ).cached().contains_key(k) && final(self).cached()[k] == old(self).cached()[k],
            forall|i: int|
                0 <= i < released@.len() ==> released_from(
                    old(self).cached(),
                    final(self).cached(),
                    id@,
                    #[trigger] released@[i],
                ),
            final(self).scripts() == old(self).scripts(),
            final(self).cache_capacity() == old(self).cache_capacity(),
    {
        self.cache.put(id.to_owned(), handle)
    }
}

/// "ID::FUNC: REST"
pub open spec fn call_message(id: Seq<char>, func: Seq<char>, rest: Seq<char>) -> Seq<char> {
    id + "::"@ + func + ": "@ + rest
}

fn call_text(id: &str, func: &str, rest: &str) -> (r: String)
    ensures
        r@ == call_message(id@, func@, rest@),
{
    let mut s = String::from_str(id);
    s.append("::");
    s.append(func);
    s.append(": ");
    s.append(rest);
    s
}

/// What a call comes to before it runs, from what the script's environment
/// holds under the function's name (`slot`, or the error that reading it
/// gave): `None` when it holds a function, which is then called;
/// `FunctionNotFound` when it holds nothing; a `ScriptError` otherwise.
pub fn plan_call<R>(id: &str, func: &str, slot: Result<FunctionSlot, String>) -> (r: Option<
    CallResult<R>,
>)
    ensures
        match slot {
            Ok(FunctionSlot::Function) => r is None,
            Ok(FunctionSlot::Nil) => r matches Some(CallResult::FunctionNotFound),
            Ok(FunctionSlot::Other(t)) => r matches Some(
                CallResult::ScriptError(LuaScriptError::RuntimeError(m)),
            ) && m@ == call_message(id@, func@, "expected function, got "@ + t@),
            Err(e) => r matches Some(CallResult::ScriptError(LuaScriptError::RuntimeError(m)))
                && m@ == call_message(id@, func@, e@),
        },
{
    match slot {
        Ok(FunctionSlot::Function) => None,
        Ok(FunctionSlot::Nil) => Some(CallResult::FunctionNotFound),
        Ok(FunctionSlot::Other(t)) => {
            let mut rest = String::from_str("expected function, got ");
            rest.append(t.as_str());
            Some(CallResult::ScriptError(LuaScriptError::RuntimeError(call_text(id, func, rest.as_str()))))
        },
        Err(e) => Some(CallResult::ScriptError(LuaScriptError::RuntimeError(call_text(id, func, e.as_str())))),
    }
}

/// How a call that ran ended.
#[derive(Debug)]
pub enum CallOutcome<R> {
    /// The function returned, and its values converted to `R`.
    Returned(R),
    /// The function raised an error, with this message.
    Raised(String),
    /// The function returned values that could not be converted to `R`.
    NotConvertible(String),
}

/// What a call that ran comes to: its converted value; the error it raised,
/// as a `RuntimeError`; or, when its return value could not be converted to
/// `R`, a `ConversionError`.
pub fn finish_call<R>(outcome: CallOutcome<R>) -> (r: CallResult<R>)
    ensures
        match outcome {
            CallOutcome::Returned(v) => r == CallResult::<R>::Returned(v),
            CallOutcome::Raised(e) => r == CallResult::<R>::ScriptError(LuaScriptError::RuntimeError(e)),
            CallOutcome::NotConvertible(e) => r == CallResult::<R>::ScriptError(
                LuaScriptError::ConversionError(e),
            ),
        },
{
    match outcome {
        CallOutcome::Returned(v) => CallResult::Returned(v),
        CallOutcome::Raised(e) => CallResult::ScriptError(LuaScriptError::RuntimeError(e)),
        CallOutcome::NotConvertible(e) => CallResult::ScriptError(LuaScriptError::ConversionError(e)),
    }
}

/// What a call comes to when the script could not be loaded: a
/// `RuntimeError` with the load error's message.
pub fn load_failure<R>(message: String) -> (r: CallResult<R>)
    ensures
        r == CallResult::<R>::ScriptError(LuaScriptError::RuntimeError(message)),
{
    CallResult::ScriptError(LuaScriptError::RuntimeError(message))
}

/// Reads the sub-table `name` of a script's environment as a `T`: `value` is
/// what the environment holds under `name`.
///
/// Nothing there is `Absent`; a value that is not a convertible table is
/// `ReadFailed`, with the reason; a table is converted to its entries
/// (`converts_to_map`), which `T::from_lua_table` receives: `Found` with the
/// struct it gives, or `ConversionFailed` with its error.
pub fn read_table<T: FromLuaTable>(value: &ScriptValue, name: &str) -> (r: TableRead<T>)
    ensures
        match *value {
            ScriptValue::Nil => r is Absent,
            ScriptValue::Table(t) => if convertible(*value) {
                exists|m: TableMap, out: Result<T, String>|
                    #![trigger converts_to_map(t, m@), call_ensures(T::from_lua_table, (m,), out)]
                    converts_to_map(t, m@) && call_ensures(T::from_lua_table, (m,), out) && match out {
                        Ok(x) => r == TableRead::Found(x),
                        Err(e) => r == TableRead::<T>::ConversionFailed(e),
                    }
            } else {
                r matches TableRead::ReadFailed(m) && m@ == conversion_error(*value)
            },
            other => r matches TableRead::ReadFailed(m) && m@ == not_a_table_message(
                name@,
                lua_type_name(other),
            ),
        },
{
    match extract_sub_table(value, name) {
        Ok(Some(map)) => {
            let convert = T::from_lua_table;
            let out = convert(map);
            match out {
                Ok(v) => TableRead::Found(v),
                Err(e) => TableRead::ConversionFailed(e),
            }
        },
        Ok(None) => TableRead::Absent,
        Err(e) => TableRead::ReadFailed(e),
    }
}

} // verus!
