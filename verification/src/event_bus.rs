//! The event bus: which handlers are subscribed to which event, and in what
//! order an emission reaches them.
//!
//! The handlers themselves (Rust closures, anchored Luau functions) live with
//! the host; the bus keeps their ids. A Rust handler is unsubscribed by the
//! `HandlerId` that subscribing gave; a Luau handler by the function it was
//! subscribed with, which the host identifies by the function's address.
use vstd::prelude::*;

use ahash::AHashMap;

verus! {

/// Opaque token of one subscription. Every subscription gets a distinct id,
/// even when the same handler is subscribed to several events.
#[derive(Debug, Clone, Copy, PartialEq, Eq, Hash, Structural)]
pub struct HandlerId(u64);

impl HandlerId {
    /// The id with this number.
    pub fn new(raw: u64) -> (r: HandlerId)
        ensures
            r.raw_value() == raw,
    {
        HandlerId(raw)
    }

    /// The number of an id.
    pub closed spec fn raw_value(self) -> u64 {
        self.0
    }

    /// The number of this id.
    pub fn raw(&self) -> (r: u64)
        ensures
            r == self.raw_value(),
    {
        self.0
    }
}

/// Hands out `HandlerId`s in increasing order, so that no two subscriptions
/// share an id (until the counter wraps, after 2^64 ids).
pub struct HandlerIdCounter {
    next: u64,
    /// The ids handed out so far, oldest first.
    issued: Ghost<Seq<HandlerId>>,
    /// Whether the counter has not wrapped yet.
    fresh: Ghost<bool>,
}

impl HandlerIdCounter {
    #[verifier::type_invariant]
    spec fn issued_below_next(self) -> bool {
        self.fresh@ ==> forall|i: int|
            0 <= i < self.issued@.len() ==> (#[trigger] self.issued@[i]).raw_value() < self.next
    }

    /// The number of the next id to hand out.
    pub closed spec fn next_raw(self) -> u64 {
        self.next
    }

    /// The ids handed out so far, oldest first.
    pub closed spec fn issued(self) -> Seq<HandlerId> {
        self.issued@
    }

    /// Whether every id handed out so far is below `next_raw`: true until
    /// the counter wraps.
    pub closed spec fn fresh(self) -> bool {
        self.fresh@
    }

    /// A counter whose first id is number 0.
    pub fn new() -> (r: HandlerIdCounter)
        ensures
            r.next_raw() == 0,
            r.issued() == Seq::<HandlerId>::empty(),
            r.fresh(),
    {
        HandlerIdCounter { next: 0, issued: Ghost(Seq::empty()), fresh: Ghost(true) }
    }

    /// The next id (`next_handler_id`): the counter's number, which then
    /// moves on by one, wrapping at `u64::MAX`. Until the counter wraps, the
    /// id is fresh: greater than every id handed out before.
    pub fn next_handler_id(&mut self) -> (r: HandlerId)
        ensures
            r.raw_value() == old(self).next_raw(),
            final(self).next_raw() == (if old(self).next_raw() == u64::MAX {
                0
            } else {
                old(self).next_raw() + 1
            }),
            final(self).issued() == old(self).issued().push(r),
            final(self).fresh() == (old(self).fresh() && old(self).next_raw() < u64::MAX),
            old(self).fresh() ==> !old(self).issued().contains(r),
            old(self).fresh() ==> forall|i: int|
                0 <= i < old(self).issued().len() ==> (#[trigger] old(self).issued()[i]).raw_value()
                    < r.raw_value(),
    {
        proof {
            use_type_invariant(&*self);
        }
        let id = HandlerId(self.next);
        let next = self.next.wrapping_add(1);
        let ghost issued = self.issued@.push(id);
        let ghost fresh = self.fresh@ && self.next < u64::MAX;
        proof {
            if self.fresh@ && self.issued@.contains(id) {
                let i = choose|i: int| 0 <= i < self.issued@.len() && self.issued@[i] == id;
                assert(self.issued@[i].raw_value() < self.next);
            }
            if fresh {
                assert forall|i: int| 0 <= i < issued.len() implies (#[trigger] issued[i]).raw_value()
                    < next by {
                    if i < self.issued@.len() {
                        assert(issued[i] == self.issued@[i]);
                    }
                }
            }
        }
        *self = HandlerIdCounter { next, issued: Ghost(issued), fresh: Ghost(fresh) };
        id
    }
}

/// One call that an emission makes, in order.
#[derive(Debug, Clone, Copy, PartialEq, Eq, Structural)]
pub enum Dispatch {
    /// Call the Luau handler of this subscription.
    Lua(HandlerId),
    /// Call the Rust handler of this subscription.
    Rust(HandlerId),
}

/// The handler lists of a map from event name to subscriptions.
pub uninterp spec fn handler_lists(m: AHashMap<String, Vec<HandlerId>>) -> Map<Seq<char>, Vec<HandlerId>>;

/// The function indexes of a map from event name to `(function address,
/// subscription)` pairs.
pub uninterp spec fn function_indexes(m: AHashMap<String, Vec<(usize, HandlerId)>>) -> Map<
    Seq<char>,
    Vec<(usize, HandlerId)>,
>;

/// `AHashMap::new` for handler lists: an empty map.
#[verifier::external_body]
fn lists_new() -> (r: AHashMap<String, Vec<HandlerId>>)
    ensures
        handler_lists(r).dom().is_empty(),
{
    AHashMap::new()
}

/// `AHashMap::get` for handler lists.
#[verifier::external_body]
fn lists_get<'a>(m: &'a AHashMap<String, Vec<HandlerId>>, k: &str) -> (r: Option<
    &'a Vec<HandlerId>,
>)
    ensures
        match r {
            Some(v) => handler_lists(*m).contains_key(k@) && *v == handler_lists(*m)[k@],
            None => !handler_lists(*m).contains_key(k@),
        },
{
    m.get(k)
}

/// `AHashMap::insert` for handler lists (the replaced list is dropped).
#[verifier::external_body]
fn lists_insert(m: &mut AHashMap<String, Vec<HandlerId>>, k: String, v: Vec<HandlerId>)
    ensures
        handler_lists(*final(m)) == handler_lists(*old(m)).insert(k@, v),
{
    m.insert(k, v);
}

/// `AHashMap::remove` for handler lists.
#[verifier::external_body]
fn lists_remove(m: &mut AHashMap<String, Vec<HandlerId>>, k: &str) -> (r: Option<Vec<HandlerId>>)
    ensures
        handler_lists(*final(m)) == handler_lists(*old(m)).remove(k@),
        r == handler_lists(*old(m)).get(k@),
{
    m.remove(k)
}

/// `AHashMap::new` for function indexes: an empty map.
#[verifier::external_body]
fn indexes_new() -> (r: AHashMap<String, Vec<(usize, HandlerId)>>)
    ensures
        function_indexes(r).dom().is_empty(),
{
    AHashMap::new()
}

/// `AHashMap::insert` for function indexes (the replaced index is dropped).
#[verifier::external_body]
fn indexes_insert(
    m: &mut AHashMap<String, Vec<(usize, HandlerId)>>,
    k: String,
    v: Vec<(usize, HandlerId)>,
)
    ensures
        function_indexes(*final(m)) == function_indexes(*old(m)).insert(k@, v),
{
    m.insert(k, v);
}

/// `AHashMap::remove` for function indexes.
#[verifier::external_body]
fn indexes_remove(m: &mut AHashMap<String, Vec<(usize, HandlerId)>>, k: &str) -> (r: Option<
    Vec<(usize, HandlerId)>,
>)
    ensures
        function_indexes(*final(m)) == function_indexes(*old(m)).remove(k@),
        r == function_indexes(*old(m)).get(k@),
{
    m.remove(k)
}

/// The subscriptions of `event` in a map of handler lists.
pub open spec fn list_of(m: Map<Seq<char>, Vec<HandlerId>>, event: Seq<char>) -> Seq<HandlerId> {
    if m.contains_key(event) {
        m[event]@
    } else {
        Seq::empty()
    }
}

/// The function index of `event` in a map of function indexes.
pub open spec fn index_of(
    m: Map<Seq<char>, Vec<(usize, HandlerId)>>,
    event: Seq<char>,
) -> Seq<(usize, HandlerId)> {
    if m.contains_key(event) {
        m[event]@
    } else {
        Seq::empty()
    }
}

/// `s` with `id` added at the end, unless it is already there.
pub open spec fn with_id(s: Seq<HandlerId>, id: HandlerId) -> Seq<HandlerId> {
    if s.contains(id) {
        s
    } else {
        s.push(id)
    }
}

/// `s` without `id`, the other ids in their order.
pub open spec fn without_id(s: Seq<HandlerId>, id: HandlerId) -> Seq<HandlerId>
    decreases s.len(),
{
    if s.len() == 0 {
        s
    } else if s.last() == id {
        without_id(s.drop_last(), id)
    } else {
        without_id(s.drop_last(), id).push(s.last())
    }
}

/// The position of the first entry of a function index for the function at
/// `ptr`.
pub open spec fn find_ptr(s: Seq<(usize, HandlerId)>, ptr: usize) -> Option<int>
    decreases s.len(),
{
    if s.len() == 0 {
        None
    } else if s[0].0 == ptr {
        Some(0)
    } else {
        match find_ptr(s.drop_first(), ptr) {
            Some(i) => Some(i + 1),
            None => None,
        }
    }
}

/// The index with the function at `ptr` mapped to `id`: its entry updated,
/// or a new entry at the end.
pub open spec fn with_ptr(s: Seq<(usize, HandlerId)>, ptr: usize, id: HandlerId) -> Seq<
    (usize, HandlerId),
> {
    match find_ptr(s, ptr) {
        Some(i) => s.update(i, (ptr, id)),
        None => s.push((ptr, id)),
    }
}

/// The index without the entry of the function at `ptr`.
pub open spec fn without_ptr(s: Seq<(usize, HandlerId)>, ptr: usize) -> Seq<(usize, HandlerId)> {
    match find_ptr(s, ptr) {
        Some(i) => s.remove(i),
        None => s,
    }
}

/// The subscription that the function at `ptr` has in the index, if any.
pub open spec fn ptr_id(s: Seq<(usize, HandlerId)>, ptr: usize) -> Option<HandlerId> {
    match find_ptr(s, ptr) {
        Some(i) => Some(s[i].1),
        None => None,
    }
}

pub(crate) proof fn lemma_find_ptr(s: Seq<(usize, HandlerId)>, ptr: usize)
    ensures
        match find_ptr(s, ptr) {
            Some(i) => 0 <= i < s.len() && s[i].0 == ptr && forall|j: int| 0 <= j < i ==> s[j].0 != ptr,
            None => forall|j: int| 0 <= j < s.len() ==> s[j].0 != ptr,
        },
    decreases s.len(),
{
    if s.len() > 0 && s[0].0 != ptr {
        lemma_find_ptr(s.drop_first(), ptr);
        match find_ptr(s.drop_first(), ptr) {
            Some(i) => {
                assert forall|j: int| 0 <= j < i + 1 implies s[j].0 != ptr by {
                    if j > 0 {
                        assert(s[j] == s.drop_first()[j - 1]);
                    }
                }
            },
            None => {
                assert forall|j: int| 0 <= j < s.len() implies s[j].0 != ptr by {
                    if j > 0 {
                        assert(s[j] == s.drop_first()[j - 1]);
                    }
                }
            },
        }
    }
}

fn find_ptr_exec(s: &Vec<(usize, HandlerId)>, ptr: usize) -> (r: Option<usize>)
    ensures
        match r {
            Some(i) => i < s@.len() && find_ptr(s@, ptr) == Some(i as int),
            None => find_ptr(s@, ptr) is None,
        },
{
    let mut i: usize = 0;
    while i < s.len()
        invariant
            i <= s@.len(),
            forall|j: int| 0 <= j < i ==> s@[j].0 != ptr,
        decreases s@.len() - i,
    {
        if s[i].0 == ptr {
            proof {
                lemma_find_ptr(s@, ptr);
            }
            return Some(i);
        }
        i = i + 1;
    }
    proof {
        lemma_find_ptr(s@, ptr);
    }
    None
}

fn contains_id(s: &Vec<HandlerId>, id: HandlerId) -> (r: bool)
    ensures
        r == s@.contains(id),
{
    let mut i: usize = 0;
    while i < s.len()
        invariant
            i <= s@.len(),
            forall|j: int| 0 <= j < i ==> s@[j] != id,
        decreases s@.len() - i,
    {
        if s[i] == id {
            proof {
                assert(s@[i as int] == id);
            }
            return true;
        }
        i = i + 1;
    }
    false
}

fn remove_id(s: Vec<HandlerId>, id: HandlerId) -> (r: Vec<HandlerId>)
    ensures
        r@ == without_id(s@, id),
{
    let mut out: Vec<HandlerId> = Vec::new();
    let mut i: usize = 0;
    while i < s.len()
        invariant
            i <= s@.len(),
            out@ == without_id(s@.take(i as int), id),
        decreases s@.len() - i,
    {
        proof {
            assert(s@.take(i + 1).drop_last() == s@.take(i as int));
            assert(s@.take(i + 1).last() == s@[i as int]);
        }
        if s[i] != id {
            out.push(s[i]);
        }
        i = i + 1;
    }
    proof {
        assert(s@.take(s@.len() as int) == s@);
    }
    out
}

/// Subscriptions by event: Rust handlers, Luau handlers, and for each event
/// the index from a Luau function's address to its subscription.
pub struct EventBus {
    rust_handlers: AHashMap<String, Vec<HandlerId>>,
    lua_handlers: AHashMap<String, Vec<HandlerId>>,
    lua_fn_index: AHashMap<String, Vec<(usize, HandlerId)>>,
}

/// No event's handler list holds an id twice.
spec fn lists_distinct(m: AHashMap<String, Vec<HandlerId>>) -> bool {
    forall|e: Seq<char>| #[trigger] list_of(handler_lists(m), e).no_duplicates()
}

/// A map of handler lists with the list of `event` put back (`list`), taken
/// out of one whose lists had no repeated id.
proof fn lemma_put_back_distinct(
    before: Map<Seq<char>, Vec<HandlerId>>,
    event: Seq<char>,
    list: Vec<HandlerId>,
)
    requires
        forall|e: Seq<char>| #[trigger] list_of(before, e).no_duplicates(),
        list@.no_duplicates(),
    ensures
        forall|e: Seq<char>|
            #[trigger] list_of(before.remove(event).insert(event, list), e).no_duplicates(),
{
    assert forall|e: Seq<char>| #[trigger]
        list_of(before.remove(event).insert(event, list), e).no_duplicates() by {
        if e != event {
            assert(list_of(before.remove(event).insert(event, list), e) == list_of(before, e));
        }
    }
}

/// A map of handler lists with the list of `event` taken out.
proof fn lemma_take_out_distinct(before: Map<Seq<char>, Vec<HandlerId>>, event: Seq<char>)
    requires
        forall|e: Seq<char>| #[trigger] list_of(before, e).no_duplicates(),
    ensures
        forall|e: Seq<char>| #[trigger] list_of(before.remove(event), e).no_duplicates(),
{
    assert forall|e: Seq<char>| #[trigger] list_of(before.remove(event), e).no_duplicates() by {
        if e != event {
            assert(list_of(before.remove(event), e) == list_of(before, e));
        } else {
            assert(list_of(before.remove(event), e) =~= Seq::<HandlerId>::empty());
        }
    }
}

impl EventBus {
    /// No event's Rust or Luau subscribers hold a subscription twice, so
    /// that an emission reaches each subscription once.
    #[verifier::type_invariant]
    spec fn subscriptions_distinct(self) -> bool {
        lists_distinct(self.rust_handlers) && lists_distinct(self.lua_handlers)
    }

    /// The Rust handlers subscribed to `event`, in subscription order.
    pub closed spec fn rust_of(self, event: Seq<char>) -> Seq<HandlerId> {
        list_of(handler_lists(self.rust_handlers), event)
    }

    /// The Luau handlers subscribed to `event`, in subscription order.
    pub closed spec fn lua_of(self, event: Seq<char>) -> Seq<HandlerId> {
        list_of(handler_lists(self.lua_handlers), event)
    }

    /// The index of `event` from Luau function address to subscription.
    pub closed spec fn index_of(self, event: Seq<char>) -> Seq<(usize, HandlerId)> {
        index_of(function_indexes(self.lua_fn_index), event)
    }

    /// An empty bus.
    pub fn new() -> (r: EventBus)
        ensures
            forall|e: Seq<char>|
                #![trigger r.rust_of(e)]
                #![trigger r.lua_of(e)]
                #![trigger r.index_of(e)]
                r.rust_of(e) == Seq::<HandlerId>::empty() && r.lua_of(e) == Seq::<HandlerId>::empty()
                    && r.index_of(e) == Seq::<(usize, HandlerId)>::empty(),
    {
        let rust_handlers = lists_new();
        let lua_handlers = lists_new();
        proof {
            assert forall|e: Seq<char>| #[trigger] list_of(handler_lists(rust_handlers), e).no_duplicates() by {
                assert(list_of(handler_lists(rust_handlers), e) =~= Seq::<HandlerId>::empty());
            }
            assert forall|e: Seq<char>| #[trigger] list_of(handler_lists(lua_handlers), e).no_duplicates() by {
                assert(list_of(handler_lists(lua_handlers), e) =~= Seq::<HandlerId>::empty());
            }
        }
        EventBus { rust_handlers, lua_handlers, lua_fn_index: indexes_new() }
    }

    /// Subscribes the Rust handler of subscription `id` to `event`.
    pub fn on(&mut self, event: &str, id: HandlerId)
        ensures
            final(self).rust_of(event@) == with_id(old(self).rust_of(event@), id),
            forall|e: Seq<char>|
                e != event@ ==> #[trigger] final(self).rust_of(e) == old(self).rust_of(e),
            forall|e: Seq<char>| #[trigger] final(self).lua_of(e) == old(self).lua_of(e),
            forall|e: Seq<char>| #[trigger] final(self).index_of(e) == old(self).index_of(e),
    {
        proof {
            use_type_invariant(&*self);
        }
        let mut handlers = lists_new();
        std::mem::swap(&mut handlers, &mut self.rust_handlers);
        let ghost before = handler_lists(handlers);
        let mut list = match lists_remove(&mut handlers, event) {
            Some(l) => l,
            None => Vec::new(),
        };
        proof {
            assert(list@ == list_of(before, event@));
            assert(list@.no_duplicates());
            crate::laws::law_subscribers_stay_distinct(list@, id);
        }
        if !contains_id(&list, id) {
            list.push(id);
        }
        let key = event.to_owned();
        proof {
            lemma_put_back_distinct(before, event@, list);
        }
        lists_insert(&mut handlers, key, list);
        self.rust_handlers = handlers;
    }

    /// Subscribes the Luau handler of subscription `id`, the function at
    /// address `func_ptr`, to `event`; the function's index entry now points
    /// to `id`.
    pub fn on_lua(&mut self, event: &str, id: HandlerId, func_ptr: usize)
        ensures
            final(self).lua_of(event@) == with_id(old(self).lua_of(event@), id),
            final(self).index_of(event@) == with_ptr(old(self).index_of(event@), func_ptr, id),
            ptr_id(final(self).index_of(event@), func_ptr) == Some(id),
            forall|q: usize|
                q != func_ptr ==> #[trigger] ptr_id(final(self).index_of(event@), q) == ptr_id(
                    old(self).index_of(event@),
                    q,
                ),
            forall|e: Seq<char>|
                e != event@ ==> #[trigger] final(self).lua_of(e) == old(self).lua_of(e),
            forall|e: Seq<char>|
                e != event@ ==> #[trigger] final(self).index_of(e) == old(self).index_of(e),
            forall|e: Seq<char>| #[trigger] final(self).rust_of(e) == old(self).rust_of(e),
    {
        proof {
            use_type_invariant(&*self);
        }
        let mut handlers = lists_new();
        std::mem::swap(&mut handlers, &mut self.lua_handlers);
        let ghost before = handler_lists(handlers);
        let mut list = match lists_remove(&mut handlers, event) {
            Some(l) => l,
            None => Vec::new(),
        };
        proof {
            assert(list@ == list_of(before, event@));
            assert(list@.no_duplicates());
            crate::laws::law_subscribers_stay_distinct(list@, id);
        }
        if !contains_id(&list, id) {
            list.push(id);
        }
        let key = event.to_owned();
        proof {
            lemma_put_back_distinct(before, event@, list);
        }
        lists_insert(&mut handlers, key, list);
        self.lua_handlers = handlers;
        let mut indexes = indexes_new();
        std::mem::swap(&mut indexes, &mut self.lua_fn_index);
        let mut index = match indexes_remove(&mut indexes, event) {
            Some(ix) => ix,
            None => Vec::new(),
        };
        match find_ptr_exec(&index, func_ptr) {
            Some(i) => {
                index.set(i, (func_ptr, id));
            },
            None => {
                index.push((func_ptr, id));
            },
        }
        indexes_insert(&mut indexes, event.to_owned(), index);
        self.lua_fn_index = indexes;
        proof {
            let before = index_of(function_indexes(old(self).lua_fn_index), event@);
            crate::laws::law_lua_subscribe_then_unsubscribe(Seq::empty(), before, func_ptr, id);
            assert forall|q: usize| q != func_ptr implies #[trigger] ptr_id(
                self.index_of(event@),
                q,
            ) == ptr_id(old(self).index_of(event@), q) by {
                crate::laws::law_subscribing_keeps_other_functions(before, func_ptr, id, q);
            }
        }
    }

    /// Unsubscribes the Rust handler of subscription `id` from `event`.
    pub fn off(&mut self, event: &str, id: HandlerId)
        ensures
            final(self).rust_of(event@) == without_id(old(self).rust_of(event@), id),
            forall|e: Seq<char>|
                e != event@ ==> #[trigger] final(self).rust_of(e) == old(self).rust_of(e),
            forall|e: Seq<char>| #[trigger] final(self).lua_of(e) == old(self).lua_of(e),
            forall|e: Seq<char>| #[trigger] final(self).index_of(e) == old(self).index_of(e),
    {
        proof {
            use_type_invariant(&*self);
        }
        let mut handlers = lists_new();
        std::mem::swap(&mut handlers, &mut self.rust_handlers);
        let ghost before = handler_lists(handlers);
        match lists_remove(&mut handlers, event) {
            Some(list) => {
                proof {
                    assert(list@ == list_of(before, event@));
                    crate::laws::law_subscribers_stay_distinct(list@, id);
                }
                let list = remove_id(list, id);
                let key = event.to_owned();
                proof {
                    lemma_put_back_distinct(before, event@, list);
                }
                lists_insert(&mut handlers, key, list);
            },
            None => {
                proof {
                    assert(without_id(Seq::<HandlerId>::empty(), id) == Seq::<HandlerId>::empty());
                    assert(before.remove(event@) =~= before);
                }
            },
        }
        self.rust_handlers = handlers;
    }

    /// Unsubscribes the Luau function at address `func_ptr` from `event`:
    /// its index entry goes, and so does the subscription it pointed to.
    /// Returns that subscription when it was still subscribed, so that its
    /// anchored function can be released.
    pub fn off_lua(&mut self, event: &str, func_ptr: usize) -> (r: Option<HandlerId>)
        ensures
            final(self).index_of(event@) == without_ptr(old(self).index_of(event@), func_ptr),
            forall|q: usize|
                q != func_ptr ==> #[trigger] ptr_id(final(self).index_of(event@), q) == ptr_id(
                    old(self).index_of(event@),
                    q,
                ),
            match ptr_id(old(self).index_of(event@), func_ptr) {
                Some(id) => {
                    &&& final(self).lua_of(event@) == without_id(old(self).lua_of(event@), id)
                    &&& r == (if old(self).lua_of(event@).contains(id) {
                        Some(id)
                    } else {
                        None
                    })
                },
                None => final(self).lua_of(event@) == old(self).lua_of(event@) && r is None,
            },
            forall|e: Seq<char>|
                e != event@ ==> #[trigger] final(self).lua_of(e) == old(self).lua_of(e),
            forall|e: Seq<char>|
                e != event@ ==> #[trigger] final(self).index_of(e) == old(self).index_of(e),
            forall|e: Seq<char>| #[trigger] final(self).rust_of(e) == old(self).rust_of(e),
    {
        proof {
            use_type_invariant(&*self);
        }
        let mut indexes = indexes_new();
        std::mem::swap(&mut indexes, &mut self.lua_fn_index);
        let taken = match indexes_remove(&mut indexes, event) {
            Some(mut index) => {
                let found = find_ptr_exec(&index, func_ptr);
                let taken = match found {
                    Some(i) => {
                        let entry = index.remove(i);
                        Some(entry.1)
                    },
                    None => None,
                };
                indexes_insert(&mut indexes, event.to_owned(), index);
                taken
            },
            None => None,
        };
        self.lua_fn_index = indexes;
        proof {
            let before = index_of(function_indexes(old(self).lua_fn_index), event@);
            assert forall|q: usize| q != func_ptr implies #[trigger] ptr_id(
                index_of(function_indexes(self.lua_fn_index), event@),
                q,
            ) == ptr_id(before, q) by {
                crate::laws::law_unsubscribing_keeps_other_functions(before, func_ptr, q);
            }
        }
        match taken {
            Some(id) => {
                let mut handlers = lists_new();
                std::mem::swap(&mut handlers, &mut self.lua_handlers);
                let ghost before = handler_lists(handlers);
                let r = match lists_remove(&mut handlers, event) {
                    Some(list) => {
                        proof {
                            assert(list@ == list_of(before, event@));
                            crate::laws::law_subscribers_stay_distinct(list@, id);
                        }
                        let present = contains_id(&list, id);
                        let list = remove_id(list, id);
                        let key = event.to_owned();
                        proof {
                            lemma_put_back_distinct(before, event@, list);
                        }
                        lists_insert(&mut handlers, key, list);
                        if present {
                            Some(id)
                        } else {
                            None
                        }
                    },
                    None => {
                        proof {
                            assert(without_id(Seq::<HandlerId>::empty(), id) == Seq::<HandlerId>::empty());
                            assert(before.remove(event@) =~= before);
                        }
                        None
                    },
                };
                self.lua_handlers = handlers;
                r
            },
            None => None,
        }
    }

    /// Unsubscribes every handler, Rust and Luau, from `event`. Returns the
    /// Luau subscriptions that were removed, so that their anchored
    /// functions can be released.
    pub fn off_all(&mut self, event: &str) -> (r: Vec<HandlerId>)
        ensures
            r@ == old(self).lua_of(event@),
            final(self).rust_of(event@) == Seq::<HandlerId>::empty(),
            final(self).lua_of(event@) == Seq::<HandlerId>::empty(),
            final(self).index_of(event@) == Seq::<(usize, HandlerId)>::empty(),
            forall|e: Seq<char>|
                e != event@ ==> #[trigger] final(self).rust_of(e) == old(self).rust_of(e),
            forall|e: Seq<char>|
                e != event@ ==> #[trigger] final(self).lua_of(e) == old(self).lua_of(e),
            forall|e: Seq<char>|
                e != event@ ==> #[trigger] final(self).index_of(e) == old(self).index_of(e),
    {
        proof {
            use_type_invariant(&*self);
        }
        let mut lua = lists_new();
        std::mem::swap(&mut lua, &mut self.lua_handlers);
        let ghost lua_before = handler_lists(lua);
        let removed = match lists_remove(&mut lua, event) {
            Some(list) => list,
            None => Vec::new(),
        };
        proof {
            lemma_take_out_distinct(lua_before, event@);
        }
        self.lua_handlers = lua;
        let mut indexes = indexes_new();
        std::mem::swap(&mut indexes, &mut self.lua_fn_index);
        indexes_remove(&mut indexes, event);
        self.lua_fn_index = indexes;
        let mut rust = lists_new();
        std::mem::swap(&mut rust, &mut self.rust_handlers);
        let ghost rust_before = handler_lists(rust);
        lists_remove(&mut rust, event);
        proof {
            lemma_take_out_distinct(rust_before, event@);
        }
        self.rust_handlers = rust;
        removed
    }

    /// The calls that emitting `event` makes, in order: every Luau handler,
    /// then every Rust handler, each subscription once.
    pub fn emit_plan(&self, event: &str) -> (r: Vec<Dispatch>)
        ensures
            self.lua_of(event@).no_duplicates(),
            self.rust_of(event@).no_duplicates(),
            r@.len() == self.lua_of(event@).len() + self.rust_of(event@).len(),
            forall|i: int|
                0 <= i < self.lua_of(event@).len() ==> r@[i] == Dispatch::Lua(
                    #[trigger] self.lua_of(event@)[i],
                ),
            forall|i: int|
                0 <= i < self.rust_of(event@).len() ==> r@[self.lua_of(event@).len() + i]
                    == Dispatch::Rust(#[trigger] self.rust_of(event@)[i]),
    {
        proof {
            use_type_invariant(self);
        }
        let mut plan: Vec<Dispatch> = Vec::new();
        let empty: Vec<HandlerId> = Vec::new();
        let lua = match lists_get(&self.lua_handlers, event) {
            Some(l) => l,
            None => &empty,
        };
        let mut i: usize = 0;
        while i < lua.len()
            invariant
                i <= lua@.len(),
                lua@ == self.lua_of(event@),
                plan@.len() == i,
                forall|j: int| 0 <= j < i ==> plan@[j] == Dispatch::Lua(#[trigger] lua@[j]),
            decreases lua@.len() - i,
        {
            plan.push(Dispatch::Lua(lua[i]));
            i = i + 1;
        }
        let rust = match lists_get(&self.rust_handlers, event) {
            Some(l) => l,
            None => &empty,
        };
        let n = lua.len();
        let mut k: usize = 0;
        while k < rust.len()
            invariant
                k <= rust@.len(),
                n == lua@.len(),
                lua@ == self.lua_of(event@),
                rust@ == self.rust_of(event@),
                plan@.len() == n + k,
                forall|j: int| 0 <= j < n ==> plan@[j] == Dispatch::Lua(#[trigger] lua@[j]),
                forall|j: int| 0 <= j < k ==> plan@[n + j] == Dispatch::Rust(#[trigger] rust@[j]),
            decreases rust@.len() - k,
        {
            plan.push(Dispatch::Rust(rust[k]));
            k = k + 1;
        }
        plan
    }
}

} // verus!
