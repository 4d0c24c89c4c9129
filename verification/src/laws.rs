//! Properties that span several operations of the manager, the registry and
//! the event bus, stated over the spec functions their contracts use.
use vstd::prelude::*;

use crate::event_bus::{
    find_ptr, lemma_find_ptr, ptr_id, with_id, with_ptr, without_id, without_ptr, HandlerId,
};
use crate::manager::{
    after_registering, cache_after_registering, declarations, invalidated, located, ModuleSource,
};
use crate::manifest::ScriptEntry;
use crate::registry::ScriptMeta;

verus! {

/// A script's global scope runs once per load: once its environment is
/// stored under handle `h`, loading it again finds that environment.
pub proof fn law_stored_module_is_found(
    cached: Map<Seq<char>, u64>,
    scripts: Map<Seq<char>, ScriptMeta>,
    id: Seq<char>,
    h: u64,
    r: ModuleSource,
)
    requires
        cached.contains_key(id),
        cached[id] == h,
        located(cached, scripts, id, r),
    ensures
        r == ModuleSource::Cached(h),
{
}

/// After `invalidate`, a registered script runs again from its source on its
/// next access, and its version is one more than before.
pub proof fn law_invalidated_script_runs_again(
    cached: Map<Seq<char>, u64>,
    scripts: Map<Seq<char>, ScriptMeta>,
    id: Seq<char>,
    r: ModuleSource,
)
    requires
        scripts.contains_key(id),
        scripts[id].version < u64::MAX,
        located(cached.remove(id), invalidated(scripts, id), id, r),
    ensures
        r == ModuleSource::Load(scripts[id].path),
        invalidated(scripts, id)[id].version == scripts[id].version + 1,
        invalidated(scripts, id)[id].path == scripts[id].path,
{
}

/// The path of the last of `scripts` that declares `id`.
pub open spec fn last_path(scripts: Seq<ScriptEntry>, id: Seq<char>) -> String
    recommends
        declarations(scripts, id) > 0,
    decreases scripts.len(),
{
    if scripts.len() == 0 {
        arbitrary()
    } else if scripts.last().id@ == id {
        scripts.last().path
    } else {
        last_path(scripts.drop_last(), id)
    }
}

/// Registering a list of scripts: the last declaration of an id wins, and
/// each declaration after the first bumps its version. A new id declared `n`
/// times ends at version `n - 1`; an id already registered at version `v`
/// ends at `v + n`. Ids not declared keep their entry.
pub proof fn law_last_registration_wins(
    reg: Map<Seq<char>, ScriptMeta>,
    scripts: Seq<ScriptEntry>,
    id: Seq<char>,
)
    requires
        scripts.len() < u64::MAX,
        reg.contains_key(id) ==> reg[id].version + declarations(scripts, id) < u64::MAX,
    ensures
        declarations(scripts, id) == 0 ==> after_registering(reg, scripts).get(id) == reg.get(id),
        declarations(scripts, id) > 0 ==> {
            &&& after_registering(reg, scripts).contains_key(id)
            &&& after_registering(reg, scripts)[id].path == last_path(scripts, id)
            &&& after_registering(reg, scripts)[id].version == if reg.contains_key(id) {
                reg[id].version + declarations(scripts, id)
            } else {
                declarations(scripts, id) - 1
            }
        },
    decreases scripts.len(),
{
    if scripts.len() > 0 {
        let rest = scripts.drop_last();
        law_last_registration_wins(reg, rest, id);
        lemma_declarations_bound(rest, id);
        let before = after_registering(reg, rest);
        let e = scripts.last();
        if e.id@ == id {
            assert(declarations(scripts, id) == declarations(rest, id) + 1);
            assert(last_path(scripts, id) == e.path);
            let after = after_registering(reg, scripts);
            assert(after == before.insert(
                id,
                crate::registry::registered_meta(before.get(id), e.path),
            ));
            if declarations(rest, id) == 0 {
                assert(before.get(id) == reg.get(id));
                if reg.contains_key(id) {
                    assert(reg[id].version + 1 < u64::MAX);
                    assert(after[id].version == reg[id].version + 1);
                } else {
                    assert(after[id].version == 0);
                }
            } else {
                assert(before.contains_key(id));
                assert(before.get(id) == Some(before[id]));
                let v = before[id].version;
                if reg.contains_key(id) {
                    assert(v == reg[id].version + declarations(rest, id));
                    assert(v + 1 < u64::MAX);
                } else {
                    assert(v == declarations(rest, id) - 1);
                    assert(v + 1 <= scripts.len());
                }
                assert(after[id].version == v + 1);
            }
        } else {
            assert(after_registering(reg, scripts) == before.insert(
                e.id@,
                crate::registry::registered_meta(before.get(e.id@), e.path),
            ));
        }
    }
}

pub(crate) proof fn lemma_declarations_bound(scripts: Seq<ScriptEntry>, id: Seq<char>)
    ensures
        declarations(scripts, id) <= scripts.len(),
    decreases scripts.len(),
{
    if scripts.len() > 0 {
        lemma_declarations_bound(scripts.drop_last(), id);
    }
}

/// Registering scripts takes out of the cache every script that was already
/// registered before its declaration (so that its new source runs on its
/// next access), and only those: the cached environment of a script that no
/// declaration names stays.
pub proof fn law_registration_invalidates_redeclared(
    cached: Map<Seq<char>, u64>,
    reg: Map<Seq<char>, ScriptMeta>,
    scripts: Seq<ScriptEntry>,
    id: Seq<char>,
)
    ensures
        declarations(scripts, id) == 0 ==> cache_after_registering(cached, reg, scripts).get(id)
            == cached.get(id),
        declarations(scripts, id) > 0 && reg.contains_key(id) ==> !cache_after_registering(
            cached,
            reg,
            scripts,
        ).contains_key(id),
        declarations(scripts, id) > 1 ==> !cache_after_registering(
            cached,
            reg,
            scripts,
        ).contains_key(id),
    decreases scripts.len(),
{
    if scripts.len() > 0 {
        let rest = scripts.drop_last();
        law_registration_invalidates_redeclared(cached, reg, rest, id);
        lemma_declared_is_registered(reg, rest, id);
    }
}

proof fn lemma_declared_is_registered(
    reg: Map<Seq<char>, ScriptMeta>,
    scripts: Seq<ScriptEntry>,
    id: Seq<char>,
)
    ensures
        declarations(scripts, id) > 0 || reg.contains_key(id) ==> after_registering(
            reg,
            scripts,
        ).contains_key(id),
        declarations(scripts, id) == 0 ==> after_registering(reg, scripts).contains_key(id)
            == reg.contains_key(id),
    decreases scripts.len(),
{
    if scripts.len() > 0 {
        lemma_declared_is_registered(reg, scripts.drop_last(), id);
    }
}

/// `without_id` leaves a list without `id` unchanged.
proof fn lemma_without_absent(s: Seq<HandlerId>, id: HandlerId)
    requires
        !s.contains(id),
    ensures
        without_id(s, id) == s,
    decreases s.len(),
{
    if s.len() > 0 {
        let rest = s.drop_last();
        assert(!rest.contains(id)) by {
            if rest.contains(id) {
                let i = choose|i: int| 0 <= i < rest.len() && rest[i] == id;
                assert(s[i] == id);
            }
        }
        lemma_without_absent(rest, id);
        assert(s.last() != id) by {
            assert(s[s.len() - 1] == s.last());
        }
        assert(rest.push(s.last()) =~= s);
    }
}

/// `without_id` removes every occurrence of `id`.
proof fn lemma_without_removes(s: Seq<HandlerId>, id: HandlerId)
    ensures
        !without_id(s, id).contains(id),
    decreases s.len(),
{
    if s.len() > 0 {
        lemma_without_removes(s.drop_last(), id);
        let w = without_id(s.drop_last(), id);
        if s.last() != id {
            assert forall|i: int| 0 <= i < w.push(s.last()).len() implies w.push(s.last())[i]
                != id by {
                if i < w.len() {
                    assert(w.push(s.last())[i] == w[i]);
                }
            }
        }
    }
}

/// `without_id` keeps only ids that were there.
proof fn lemma_without_subset(s: Seq<HandlerId>, id: HandlerId, x: HandlerId)
    ensures
        without_id(s, id).contains(x) ==> s.contains(x),
    decreases s.len(),
{
    if s.len() > 0 {
        let rest = s.drop_last();
        lemma_without_subset(rest, id, x);
        let w = without_id(rest, id);
        if without_id(s, id).contains(x) {
            let i = choose|i: int| 0 <= i < without_id(s, id).len() && without_id(s, id)[i] == x;
            if s.last() != id && i == w.len() {
                assert(s[s.len() - 1] == x);
            } else {
                assert(w[i] == x);
                let j = choose|j: int| 0 <= j < rest.len() && rest[j] == x;
                assert(s[j] == x);
            }
        }
    }
}

/// `without_id` keeps a list free of repeated ids.
proof fn lemma_without_distinct(s: Seq<HandlerId>, id: HandlerId)
    requires
        s.no_duplicates(),
    ensures
        without_id(s, id).no_duplicates(),
    decreases s.len(),
{
    if s.len() > 0 {
        let rest = s.drop_last();
        assert(rest.no_duplicates()) by {
            assert forall|i: int, j: int| 0 <= i < rest.len() && 0 <= j < rest.len() && i != j implies rest[i]
                != rest[j] by {
                assert(rest[i] == s[i] && rest[j] == s[j]);
            }
        }
        lemma_without_distinct(rest, id);
        let w = without_id(rest, id);
        if s.last() != id {
            lemma_without_subset(rest, id, s.last());
            assert(!rest.contains(s.last())) by {
                if rest.contains(s.last()) {
                    let j = choose|j: int| 0 <= j < rest.len() && rest[j] == s.last();
                    assert(s[j] == s[s.len() - 1]);
                }
            }
            let p = w.push(s.last());
            assert forall|i: int, j: int| 0 <= i < p.len() && 0 <= j < p.len() && i != j implies p[i]
                != p[j] by {
                if i < w.len() && j < w.len() {
                    assert(p[i] == w[i] && p[j] == w[j]);
                } else if i < w.len() {
                    assert(p[i] == w[i]);
                    assert(w.contains(w[i]));
                } else if j < w.len() {
                    assert(p[j] == w[j]);
                    assert(w.contains(w[j]));
                }
            }
        }
    }
}

/// Each subscription is reached once per emission: subscribing and
/// unsubscribing keep an event's subscribers free of repeated ids.
pub proof fn law_subscribers_stay_distinct(s: Seq<HandlerId>, id: HandlerId)
    requires
        s.no_duplicates(),
    ensures
        with_id(s, id).no_duplicates(),
        without_id(s, id).no_duplicates(),
{
    lemma_without_distinct(s, id);
    if !s.contains(id) {
        let p = s.push(id);
        assert forall|i: int, j: int| 0 <= i < p.len() && 0 <= j < p.len() && i != j implies p[i]
            != p[j] by {
            if i < s.len() && j < s.len() {
                assert(p[i] == s[i] && p[j] == s[j]);
            } else if i < s.len() {
                assert(p[i] == s[i]);
            } else if j < s.len() {
                assert(p[j] == s[j]);
            }
        }
    }
}

/// Subscribing a handler to an event puts it among the event's subscribers
/// (so that emitting the event calls it); unsubscribing it takes it out (so
/// that emitting no longer calls it); and unsubscribing a fresh subscription
/// gives back the subscribers the event had before it.
pub proof fn law_subscribe_then_unsubscribe(s: Seq<HandlerId>, id: HandlerId)
    ensures
        with_id(s, id).contains(id),
        !without_id(s, id).contains(id),
        !s.contains(id) ==> without_id(with_id(s, id), id) == s,
{
    if !s.contains(id) {
        assert(s.push(id)[s.len() as int] == id);
        assert(s.push(id).drop_last() =~= s);
        lemma_without_absent(s, id);
    } else {
    }
    lemma_without_removes(s, id);
}

proof fn lemma_find_unique(s: Seq<(usize, HandlerId)>, ptr: usize, i: int)
    requires
        0 <= i < s.len(),
        s[i].0 == ptr,
        forall|j: int| 0 <= j < i ==> s[j].0 != ptr,
    ensures
        find_ptr(s, ptr) == Some(i),
{
    lemma_find_ptr(s, ptr);
    match find_ptr(s, ptr) {
        Some(k) => {
            if k < i {
                assert(s[k].0 != ptr);
            } else if k > i {
                assert(s[i].0 != ptr);
            }
        },
        None => {
            assert(s[i].0 != ptr);
        },
    }
}

/// A Luau function subscribed to an event, then unsubscribed by reference to
/// the same function, hands back the subscription it was given; when the
/// function and the subscription were new to the event, the event's Luau
/// subscribers and function index are back to what they were.
pub proof fn law_lua_subscribe_then_unsubscribe(
    subscribers: Seq<HandlerId>,
    index: Seq<(usize, HandlerId)>,
    ptr: usize,
    id: HandlerId,
)
    ensures
        ptr_id(with_ptr(index, ptr, id), ptr) == Some(id),
        with_id(subscribers, id).contains(id),
        !subscribers.contains(id) ==> without_id(with_id(subscribers, id), id) == subscribers,
        ptr_id(index, ptr) is None ==> without_ptr(with_ptr(index, ptr, id), ptr) == index,
{
    law_subscribe_then_unsubscribe(subscribers, id);
    lemma_find_ptr(index, ptr);
    match find_ptr(index, ptr) {
        Some(i) => {
            let u = index.update(i, (ptr, id));
            assert forall|j: int| 0 <= j < i implies u[j].0 != ptr by {
                assert(u[j] == index[j]);
            }
            lemma_find_unique(u, ptr, i);
        },
        None => {
            let p = index.push((ptr, id));
            let n = index.len() as int;
            assert forall|j: int| 0 <= j < n implies p[j].0 != ptr by {
                assert(p[j] == index[j]);
            }
            assert(p[n] == (ptr, id));
            lemma_find_unique(p, ptr, n);
            assert(p.remove(n) =~= index);
        },
    }
}

/// The same Luau function subscribed twice to an event holds two
/// subscriptions (an emission calls it twice); unsubscribing it once by
/// reference to the function takes the later one out and leaves the first
/// (an emission calls it once), and the function index is back to what it
/// was.
pub proof fn law_lua_double_subscription(
    subscribers: Seq<HandlerId>,
    index: Seq<(usize, HandlerId)>,
    ptr: usize,
    first: HandlerId,
    second: HandlerId,
)
    requires
        !subscribers.contains(first),
        !subscribers.contains(second),
        first != second,
        ptr_id(index, ptr) is None,
    ensures
        with_id(with_id(subscribers, first), second) == subscribers.push(first).push(second),
        ptr_id(with_ptr(with_ptr(index, ptr, first), ptr, second), ptr) == Some(second),
        without_id(subscribers.push(first).push(second), second) == subscribers.push(first),
        without_ptr(with_ptr(with_ptr(index, ptr, first), ptr, second), ptr) == index,
{
    let once = subscribers.push(first);
    assert(!once.contains(second)) by {
        if once.contains(second) {
            let i = choose|i: int| 0 <= i < once.len() && once[i] == second;
            if i < subscribers.len() {
                assert(subscribers[i] == second);
            }
        }
    }
    let twice = once.push(second);
    assert(twice.drop_last() =~= once);
    assert(twice.last() == second);
    lemma_without_absent(once, second);
    lemma_find_ptr(index, ptr);
    let n = index.len() as int;
    let p1 = index.push((ptr, first));
    assert forall|j: int| 0 <= j < n implies p1[j].0 != ptr by {
        assert(p1[j] == index[j]);
    }
    lemma_find_unique(p1, ptr, n);
    assert(with_ptr(index, ptr, first) == p1);
    let p2 = p1.update(n, (ptr, second));
    assert(with_ptr(p1, ptr, second) == p2);
    assert forall|j: int| 0 <= j < n implies p2[j].0 != ptr by {
        assert(p2[j] == index[j]);
    }
    lemma_find_unique(p2, ptr, n);
    assert(p2.remove(n) =~= index);
}

/// Ids handed out by a counter that has not wrapped are new to every event:
/// when each subscriber of an event was handed out before (and so is below
/// `id`, as `HandlerIdCounter::next_handler_id` states of every earlier id),
/// `id` is not among them. Two ids handed out one after the other are
/// distinct, so a Luau function subscribed twice with fresh ids meets
/// `law_lua_double_subscription`.
pub proof fn law_fresh_id_is_new_subscriber(
    issued: Seq<HandlerId>,
    subscribers: Seq<HandlerId>,
    id: HandlerId,
)
    requires
        forall|j: int| 0 <= j < subscribers.len() ==> issued.contains(#[trigger] subscribers[j]),
        forall|i: int| 0 <= i < issued.len() ==> (#[trigger] issued[i]).raw_value() < id.raw_value(),
    ensures
        !subscribers.contains(id),
        !issued.contains(id),
{
    if subscribers.contains(id) {
        let j = choose|j: int| 0 <= j < subscribers.len() && subscribers[j] == id;
        assert(issued.contains(subscribers[j]));
        let i = choose|i: int| 0 <= i < issued.len() && issued[i] == id;
        assert(issued[i].raw_value() < id.raw_value());
    }
    if issued.contains(id) {
        let i = choose|i: int| 0 <= i < issued.len() && issued[i] == id;
        assert(issued[i].raw_value() < id.raw_value());
    }
}

proof fn lemma_find_none(s: Seq<(usize, HandlerId)>, q: usize)
    requires
        forall|k: int| 0 <= k < s.len() ==> s[k].0 != q,
    ensures
        find_ptr(s, q) is None,
{
    lemma_find_ptr(s, q);
    match find_ptr(s, q) {
        Some(k) => {
            assert(s[k].0 != q);
        },
        None => {},
    }
}

/// Unsubscribing one Luau function from an event leaves every other
/// function's subscription where it was: after `off_lua` for the function at
/// `ptr`, the function at any other address `q` still finds the same
/// subscription (or still finds none).
pub proof fn law_unsubscribing_keeps_other_functions(
    index: Seq<(usize, HandlerId)>,
    ptr: usize,
    q: usize,
)
    requires
        q != ptr,
    ensures
        ptr_id(without_ptr(index, ptr), q) == ptr_id(index, q),
{
    lemma_find_ptr(index, ptr);
    lemma_find_ptr(index, q);
    match find_ptr(index, ptr) {
        None => {},
        Some(i) => {
            let r = index.remove(i);
            match find_ptr(index, q) {
                Some(j) => {
                    assert(j != i);
                    if j < i {
                        assert forall|k: int| 0 <= k < j implies r[k].0 != q by {
                            assert(r[k] == index[k]);
                        }
                        assert(r[j] == index[j]);
                        lemma_find_unique(r, q, j);
                    } else {
                        assert forall|k: int| 0 <= k < j - 1 implies r[k].0 != q by {
                            if k < i {
                                assert(r[k] == index[k]);
                            } else {
                                assert(r[k] == index[k + 1]);
                            }
                        }
                        assert(r[j - 1] == index[j]);
                        lemma_find_unique(r, q, j - 1);
                    }
                },
                None => {
                    assert forall|k: int| 0 <= k < r.len() implies r[k].0 != q by {
                        if k < i {
                            assert(r[k] == index[k]);
                        } else {
                            assert(r[k] == index[k + 1]);
                        }
                    }
                    lemma_find_none(r, q);
                },
            }
        },
    }
}

/// Subscribing one Luau function to an event leaves every other function's
/// subscription where it was: after `on_lua` for the function at `ptr`, the
/// function at any other address `q` still finds the same subscription (or
/// still finds none), and the function at `ptr` finds the new one.
pub proof fn law_subscribing_keeps_other_functions(
    index: Seq<(usize, HandlerId)>,
    ptr: usize,
    id: HandlerId,
    q: usize,
)
    requires
        q != ptr,
    ensures
        ptr_id(with_ptr(index, ptr, id), q) == ptr_id(index, q),
        ptr_id(with_ptr(index, ptr, id), ptr) == Some(id),
{
    law_lua_subscribe_then_unsubscribe(Seq::empty(), index, ptr, id);
    lemma_find_ptr(index, ptr);
    lemma_find_ptr(index, q);
    let t = with_ptr(index, ptr, id);
    match find_ptr(index, ptr) {
        Some(i) => {
            assert(t == index.update(i, (ptr, id)));
            match find_ptr(index, q) {
                Some(j) => {
                    assert(j != i);
                    assert forall|k: int| 0 <= k < j implies t[k].0 != q by {
                        if k != i {
                            assert(t[k] == index[k]);
                        }
                    }
                    assert(t[j] == index[j]);
                    lemma_find_unique(t, q, j);
                },
                None => {
                    assert forall|k: int| 0 <= k < t.len() implies t[k].0 != q by {
                        if k != i {
                            assert(t[k] == index[k]);
                        }
                    }
                    lemma_find_none(t, q);
                },
            }
        },
        None => {
            assert(t == index.push((ptr, id)));
            match find_ptr(index, q) {
                Some(j) => {
                    assert forall|k: int| 0 <= k < j implies t[k].0 != q by {
                        assert(t[k] == index[k]);
                    }
                    assert(t[j] == index[j]);
                    lemma_find_unique(t, q, j);
                },
                None => {
                    assert forall|k: int| 0 <= k < t.len() implies t[k].0 != q by {
                        if k < index.len() {
                            assert(t[k] == index[k]);
                        }
                    }
                    lemma_find_none(t, q);
                },
            }
        },
    }
}

} // verus!
