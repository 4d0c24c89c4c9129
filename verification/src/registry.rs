//! The registry of scripts: for each script id, where its source lies and
//! how many times it was registered again.
use vstd::prelude::*;

use ahash::AHashMap;

verus! {

/// Identifier of a registered script (e.g. `"cards.blood_moon"`).
pub type ScriptId = String;

/// Static metadata for a registered script, from the manifest that declared
/// it. `version` counts the registrations and invalidations that replaced it.
#[derive(Debug, Clone)]
pub struct ScriptMeta {
    pub path: String,
    pub version: u64,
}

/// The entries of a map from script id to metadata, by the id's text.
pub uninterp spec fn registry_entries(m: AHashMap<String, ScriptMeta>) -> Map<Seq<char>, ScriptMeta>;

/// `AHashMap::new`: an empty map.
#[verifier::external_body]
fn meta_map_new() -> (r: AHashMap<String, ScriptMeta>)
    ensures
        registry_entries(r).dom().is_empty(),
{
    AHashMap::new()
}

/// `AHashMap::get`: the entry whose key has the text of `k`, if any.
#[verifier::external_body]
fn meta_map_get<'a>(m: &'a AHashMap<String, ScriptMeta>, k: &str) -> (r: Option<&'a ScriptMeta>)
    ensures
        match r {
            Some(v) => registry_entries(*m).contains_key(k@) && *v == registry_entries(*m)[k@],
            None => !registry_entries(*m).contains_key(k@),
        },
{
    m.get(k)
}

/// `AHashMap::get_mut`: a mutable borrow of the entry whose key has the text
/// of `k`, if any; what is written through it is what the map then holds.
#[verifier::external_body]
fn meta_map_get_mut<'a>(m: &'a mut AHashMap<String, ScriptMeta>, k: &str) -> (r: Option<
    &'a mut ScriptMeta,
>)
    ensures
        match r {
            Some(v) => {
                &&& registry_entries(*old(m)).contains_key(k@)
                &&& *v == registry_entries(*old(m))[k@]
                &&& registry_entries(*final(m)) == registry_entries(*old(m)).insert(k@, *final(v))
            },
            None => {
                &&& !registry_entries(*old(m)).contains_key(k@)
                &&& registry_entries(*final(m)) == registry_entries(*old(m))
            },
        },
{
    m.get_mut(k)
}

/// `AHashMap::insert`: the map with `v` under `k`, and the value it replaced.
/// A map holds finitely many entries.
#[verifier::external_body]
fn meta_map_insert(m: &mut AHashMap<String, ScriptMeta>, k: String, v: ScriptMeta) -> (r: Option<
    ScriptMeta,
>)
    ensures
        registry_entries(*final(m)) == registry_entries(*old(m)).insert(k@, v),
        registry_entries(*final(m)).dom().finite(),
        match r {
            Some(old_v) => registry_entries(*old(m)).contains_key(k@) && old_v == registry_entries(
                *old(m),
            )[k@],
            None => !registry_entries(*old(m)).contains_key(k@),
        },
{
    m.insert(k, v)
}

/// `HashMap::len` (through `AHashMap`'s `Deref`): the number of entries.
#[verifier::external_body]
fn meta_map_len(m: &AHashMap<String, ScriptMeta>) -> (r: usize)
    ensures
        r == registry_entries(*m).len(),
{
    m.len()
}

/// Map of all scripts discovered from `manifest.toml` files under the asset
/// roots, keyed by script id.
pub struct ScriptRegistry {
    entries: AHashMap<String, ScriptMeta>,
}

impl View for ScriptRegistry {
    type V = Map<Seq<char>, ScriptMeta>;

    closed spec fn view(&self) -> Map<Seq<char>, ScriptMeta> {
        registry_entries(self.entries)
    }
}

/// The metadata that registering `path` under an id gives, `prev` being what
/// the id held before: version 0 for a new id, one more than before for an id
/// registered again.
pub open spec fn registered_meta(prev: Option<ScriptMeta>, path: String) -> ScriptMeta {
    match prev {
        Some(m) => ScriptMeta { path, version: (m.version + 1) as u64 },
        None => ScriptMeta { path, version: 0 },
    }
}

/// Whether registering `id` again is possible without its version counter
/// overflowing.
pub open spec fn can_register(reg: Map<Seq<char>, ScriptMeta>, id: Seq<char>) -> bool {
    reg.contains_key(id) ==> reg[id].version < u64::MAX
}

impl ScriptRegistry {
    /// An empty registry.
    pub fn new() -> (r: ScriptRegistry)
        ensures
            r@ == Map::<Seq<char>, ScriptMeta>::empty(),
    {
        let r = ScriptRegistry { entries: meta_map_new() };
        proof {
            assert(r@ =~= Map::<Seq<char>, ScriptMeta>::empty());
        }
        r
    }

    /// Inserts or overwrites a script entry. A second registration of the
    /// same id wins: its path replaces the old one and the version is bumped.
    pub fn register(&mut self, id: ScriptId, path: String)
        requires
            can_register(old(self)@, id@),
        ensures
            final(self)@ == old(self)@.insert(
                id@,
                registered_meta(
                    if old(self)@.contains_key(id@) {
                        Some(old(self)@[id@])
                    } else {
                        None
                    },
                    path,
                ),
            ),
            final(self)@.dom().finite(),
            final(self)@.len() == if old(self)@.contains_key(id@) {
                old(self)@.len()
            } else {
                old(self)@.len() + 1
            },
    {
        let ghost k = id@;
        let version = match meta_map_get(&self.entries, id.as_str()) {
            Some(meta) => meta.version + 1,
            None => 0,
        };
        meta_map_insert(&mut self.entries, id, ScriptMeta { path, version });
        proof {
            let before = old(self)@.dom();
            assert(self@.dom() == before.insert(k));
            vstd::set_lib::lemma_set_insert_finite_iff(before, k);
        }
    }

    /// The entry of `id`, if registered.
    pub fn get(&self, id: &str) -> (r: Option<&ScriptMeta>)
        ensures
            match r {
                Some(m) => self@.contains_key(id@) && *m == self@[id@],
                None => !self@.contains_key(id@),
            },
    {
        meta_map_get(&self.entries, id)
    }

    /// A mutable borrow of the entry of `id`, if registered; what is written
    /// through it is what the registry then holds under `id`.
    pub fn get_mut(&mut self, id: &str) -> (r: Option<&mut ScriptMeta>)
        ensures
            match r {
                Some(m) => {
                    &&& old(self)@.contains_key(id@)
                    &&& *m == old(self)@[id@]
                    &&& final(self)@ == old(self)@.insert(id@, *final(m))
                },
                None => !old(self)@.contains_key(id@) && final(self)@ == old(self)@,
            },
    {
        meta_map_get_mut(&mut self.entries, id)
    }

    /// The number of registered scripts.
    pub fn len(&self) -> (r: usize)
        ensures
            r == self@.len(),
    {
        meta_map_len(&self.entries)
    }
}

} // verus!
