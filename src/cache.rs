//! The LRU store: a slot arena threaded by a doubly linked recency list,
//! a key index from key to slot, and a pool of vacant slots.

use std::collections::hash_map::RandomState;
use std::collections::HashMap;
use std::hash::Hash;
use vstd::prelude::*;
use vstd::std_specs::hash::{builds_valid_hashers, obeys_key_model};

verus! {

broadcast use vstd::std_specs::hash::group_hash_axioms;

/// One live cache record, stored in a slot of the arena.
///
/// `prev` is the slot of the next less recently used entry (`None` at the
/// head), `next` the slot of the next more recently used one (`None` at the
/// tail).
#[derive(Debug, PartialEq)]
pub struct Node<K, V> {
    pub key: K,
    pub value: V,
    pub prev: Option<usize>,
    pub next: Option<usize>,
}

/// Returned by `delete` when the key is not in the cache.
#[derive(Debug, PartialEq, Eq, Clone, Copy)]
pub enum DeleteError {
    NotFound,
}

/// Returned by `try_new` for a capacity below one.
#[derive(Debug, PartialEq, Eq, Clone, Copy)]
pub enum CapacityError {
    InvalidCapacity,
}

/// A cache of at most `capacity` entries that, when full, makes room for a
/// new key by evicting the least recently used entry.
pub struct LruCache<K, V> {
    items: Vec<Option<Node<K, V>>>,
    map: HashMap<K, usize>,
    free_slots: Vec<usize>,
    head: Option<usize>,
    tail: Option<usize>,
    len: usize,
    capacity: usize,
    /// The occupied slots, from least to most recently used.
    order: Ghost<Seq<usize>>,
}

/// Whether no two entries of `s` share a key.
pub open spec fn keys_unique<K, V>(s: Seq<(K, V)>) -> bool {
    forall|i: int, j: int|
        0 <= i < s.len() && 0 <= j < s.len() && i != j ==> #[trigger] s[i].0 != #[trigger] s[j].0
}

/// Whether some entry of `s` has the key `k`.
pub open spec fn holds_key<K, V>(s: Seq<(K, V)>, k: K) -> bool {
    exists|i: int| 0 <= i < s.len() && #[trigger] s[i].0 == k
}

/// The position of an entry of `s` with key `k`.
pub open spec fn key_position<K, V>(s: Seq<(K, V)>, k: K) -> int {
    choose|i: int| 0 <= i < s.len() && #[trigger] s[i].0 == k
}

/// The value stored under `k` in `s`.
pub open spec fn value_of<K, V>(s: Seq<(K, V)>, k: K) -> V {
    s[key_position(s, k)].1
}

/// The entries after a hit on `k`: its entry moves to the most recently
/// used end. A miss leaves the entries as they are.
pub open spec fn promoted<K, V>(s: Seq<(K, V)>, k: K) -> Seq<(K, V)> {
    if holds_key(s, k) {
        let i = key_position(s, k);
        s.remove(i).push(s[i])
    } else {
        s
    }
}

/// The entries after writing `(k, v)` into a cache of the given capacity:
/// an update replaces the value and promotes the key; a new key is appended
/// at the most recently used end, after evicting the least recently used
/// entry when the cache is full.
pub open spec fn written<K, V>(s: Seq<(K, V)>, capacity: nat, k: K, v: V) -> Seq<(K, V)> {
    if holds_key(s, k) {
        s.remove(key_position(s, k)).push((k, v))
    } else if s.len() < capacity {
        s.push((k, v))
    } else {
        s.drop_first().push((k, v))
    }
}

/// The entries after deleting `k`.
pub open spec fn deleted<K, V>(s: Seq<(K, V)>, k: K) -> Seq<(K, V)> {
    if holds_key(s, k) {
        s.remove(key_position(s, k))
    } else {
        s
    }
}

/// With unique keys, the position of an entry's key is its own.
proof fn lemma_key_position<K, V>(s: Seq<(K, V)>, i: int)
    requires
        keys_unique(s),
        0 <= i < s.len(),
    ensures
        holds_key(s, s[i].0),
        key_position(s, s[i].0) == i,
{
    assert(holds_key(s, s[i].0));
}

/// The slots visited by following `next` links from `at`, for at most
/// `steps` steps, stopping at a missing link or a vacant slot.
pub open spec fn walk<K, V>(slots: Seq<Option<Node<K, V>>>, at: Option<usize>, steps: nat) -> Seq<
    usize,
>
    decreases steps,
{
    if steps == 0 {
        Seq::empty()
    } else {
        match at {
            None => Seq::empty(),
            Some(s) => if s < slots.len() && slots[s as int] is Some {
                seq![s] + walk(slots, slots[s as int]->Some_0.next, (steps - 1) as nat)
            } else {
                Seq::empty()
            },
        }
    }
}

/// A write never takes the cache past its capacity. Once the cache is full,
/// a write of a new key evicts exactly the least recently used entry and
/// the length stays at the capacity.
pub proof fn lemma_write_bounded<K, V>(s: Seq<(K, V)>, capacity: nat, k: K, v: V)
    requires
        keys_unique(s),
        1 <= capacity,
        s.len() <= capacity,
    ensures
        written(s, capacity, k, v).len() <= capacity,
        s.len() == capacity && !holds_key(s, k) ==> {
            &&& written(s, capacity, k, v).len() == capacity
            &&& written(s, capacity, k, v) == s.drop_first().push((k, v))
        },
{
    if holds_key(s, k) {
        let p = key_position(s, k);
        assert(0 <= p < s.len());
    }
}

/// Deleting a present key and writing it again gives the same entries as
/// writing it without the delete: the key is most recently used and holds
/// the new value.
pub proof fn lemma_delete_then_write<K, V>(s: Seq<(K, V)>, capacity: nat, k: K, v: V)
    requires
        keys_unique(s),
        s.len() <= capacity,
        holds_key(s, k),
    ensures
        written(deleted(s, k), capacity, k, v) == written(s, capacity, k, v),
{
    let p = key_position(s, k);
    let d = s.remove(p);
    assert(d.len() < capacity);
    if holds_key(d, k) {
        let j = choose|j: int| 0 <= j < d.len() && #[trigger] d[j].0 == k;
        let a = if j < p { j } else { j + 1 };
        assert(s[a].0 == k);
    }
}

impl<K, V> View for LruCache<K, V> {
    type V = Seq<(K, V)>;

    /// The live entries, from least to most recently used.
    closed spec fn view(&self) -> Seq<(K, V)> {
        self.order@.map_values(|s: usize| self.entry(s as int))
    }
}

impl<K, V> LruCache<K, V> {
    spec fn node(&self, s: int) -> Node<K, V> {
        self.items@[s]->Some_0
    }

    spec fn entry(&self, s: int) -> (K, V) {
        (self.node(s).key, self.node(s).value)
    }

    /// The largest number of entries the cache holds.
    pub closed spec fn spec_capacity(&self) -> nat {
        self.capacity as nat
    }

    /// The slot arena: each slot vacant or holding one entry with its links.
    pub closed spec fn spec_slots(&self) -> Seq<Option<Node<K, V>>> {
        self.items@
    }

    /// The slot of the least recently used entry.
    pub closed spec fn spec_head(&self) -> Option<usize> {
        self.head
    }

    /// The slot of the most recently used entry.
    pub closed spec fn spec_tail(&self) -> Option<usize> {
        self.tail
    }

    /// The structural invariant of the store.
    pub closed spec fn wf(&self) -> bool {
        let order = self.order@;
        let cap = self.capacity as int;
        let n = order.len();
        &&& obeys_key_model::<K>()
        &&& builds_valid_hashers::<RandomState>()
        &&& cap >= 1
        &&& self.items@.len() == cap
        &&& self.len as int == n
        &&& order.no_duplicates()
        &&& forall|i: int|
            0 <= i < n ==> (#[trigger] order[i] as int) < cap && self.items@[order[i] as int] is Some
        &&& forall|s: int|
            0 <= s < cap && (#[trigger] self.items@[s]) is Some ==> order.contains(s as usize)
        &&& forall|i: int|
            0 <= i < n ==> #[trigger] self.node(order[i] as int).prev == (if i == 0 {
                None
            } else {
                Some(order[i - 1])
            })
        &&& forall|i: int|
            0 <= i < n ==> #[trigger] self.node(order[i] as int).next == (if i == n - 1 {
                None
            } else {
                Some(order[i + 1])
            })
        &&& self.head == (if n == 0 { None } else { Some(order[0]) })
        &&& self.tail == (if n == 0 { None } else { Some(order[n - 1]) })
        &&& self.map@.dom().finite()
        &&& self.map@.dom().len() == n
        &&& forall|i: int|
            0 <= i < n ==> self.map@.contains_key(#[trigger] self.node(order[i] as int).key)
                && self.map@[self.node(order[i] as int).key] == order[i]
        &&& forall|k: K|
            #[trigger] self.map@.contains_key(k) ==> (self.map@[k] as int) < cap
                && self.items@[self.map@[k] as int] is Some && self.node(self.map@[k] as int).key
                == k
        &&& self.free_slots@.no_duplicates()
        &&& forall|j: int|
            0 <= j < self.free_slots@.len() ==> (#[trigger] self.free_slots@[j] as int) < cap
                && self.items@[self.free_slots@[j] as int] is None
        &&& self.free_slots@.len() + n == cap
    }
}

impl<K: Copy + Eq + Hash, V> LruCache<K, V> {
    /// Whether `self` and `other` hold the same key and value in every slot.
    spec fn same_entries(&self, other: &Self) -> bool {
        &&& self.items@.len() == other.items@.len()
        &&& forall|s: int|
            0 <= s < self.items@.len() ==> (#[trigger] self.items@[s] is Some) == (
            other.items@[s] is Some)
        &&& forall|s: int|
            0 <= s < self.items@.len() && self.items@[s] is Some ==> (#[trigger] self.node(s)).key
                == other.node(s).key && self.node(s).value == other.node(s).value
    }

    /// Whether the key index, the pool of vacant slots, the length and the
    /// capacity agree.
    spec fn same_index(&self, other: &Self) -> bool {
        &&& self.map@ == other.map@
        &&& self.free_slots@ == other.free_slots@
        &&& self.len == other.len
        &&& self.capacity == other.capacity
    }

    /// Sets the `prev` link of the entry in slot `s`.
    fn set_prev(&mut self, s: usize, p: Option<usize>)
        requires
            s < old(self).items@.len(),
            old(self).items@[s as int] is Some,
        ensures
            final(self).items@ == old(self).items@.update(
                s as int,
                Some(Node { prev: p, ..old(self).node(s as int) }),
            ),
            final(self).same_index(old(self)),
            final(self).head == old(self).head,
            final(self).tail == old(self).tail,
            final(self).order == old(self).order,
    {
        let mut cell: Option<Node<K, V>> = None;
        self.items.set_and_swap(s, &mut cell);
        if let Some(mut node) = cell {
            node.prev = p;
            self.items.set(s, Some(node));
        }
    }

    /// Sets the `next` link of the entry in slot `s`.
    fn set_next(&mut self, s: usize, n: Option<usize>)
        requires
            s < old(self).items@.len(),
            old(self).items@[s as int] is Some,
        ensures
            final(self).items@ == old(self).items@.update(
                s as int,
                Some(Node { next: n, ..old(self).node(s as int) }),
            ),
            final(self).same_index(old(self)),
            final(self).head == old(self).head,
            final(self).tail == old(self).tail,
            final(self).order == old(self).order,
    {
        let mut cell: Option<Node<K, V>> = None;
        self.items.set_and_swap(s, &mut cell);
        if let Some(mut node) = cell {
            node.next = n;
            self.items.set(s, Some(node));
        }
    }

    /// Every live key is indexed at its slot, and keys are unique among the
    /// live entries.
    proof fn lemma_index(&self, k: K)
        requires
            self.wf(),
        ensures
            keys_unique(self@),
            self.map@.contains_key(k) <==> holds_key(self@, k),
            self.map@.contains_key(k) ==> self.order@[key_position(self@, k)] == self.map@[k],
    {
        let o = self.order@;
        self.lemma_bounded_and_unique();
        if self.map@.contains_key(k) {
            let s = self.map@[k];
            assert(o.contains(s));
            let i = choose|i: int| 0 <= i < o.len() && o[i] == s;
            assert(self@[i].0 == k);
            lemma_key_position(self@, i);
        }
        if holds_key(self@, k) {
            let i = choose|i: int| 0 <= i < self@.len() && #[trigger] self@[i].0 == k;
            assert(self.map@.contains_key(self.node(o[i] as int).key));
        }
    }

    /// Replaces the value of the entry in slot `s`, the `i`-th least
    /// recently used.
    fn set_value(&mut self, s: usize, value: V, Ghost(i): Ghost<int>)
        requires
            old(self).wf(),
            0 <= i < old(self).order@.len(),
            old(self).order@[i] == s,
        ensures
            final(self).wf(),
            final(self).order == old(self).order,
            final(self).same_index(old(self)),
            final(self).head == old(self).head,
            final(self).tail == old(self).tail,
            final(self)@ == old(self)@.update(i, (old(self)@[i].0, value)),
    {
        let ghost old_self = *self;
        let mut cell: Option<Node<K, V>> = None;
        self.items.set_and_swap(s, &mut cell);
        if let Some(mut node) = cell {
            node.value = value;
            self.items.set(s, Some(node));
        }
        let ghost o = self.order@;
        assert forall|j: int| 0 <= j < o.len() implies #[trigger] self.node(o[j] as int).prev == (
        if j == 0 {
            None
        } else {
            Some(o[j - 1])
        }) by {
            assert(old_self.node(o[j] as int).prev == (if j == 0 { None } else { Some(o[j - 1]) }));
        }
        assert forall|j: int| 0 <= j < o.len() implies #[trigger] self.node(o[j] as int).next == (
        if j == o.len() - 1 {
            None
        } else {
            Some(o[j + 1])
        }) by {
            assert(old_self.node(o[j] as int).next == (if j == o.len() - 1 { None } else { Some(o[j + 1]) }));
        }
        assert forall|j: int| 0 <= j < o.len() implies self.map@.contains_key(
            #[trigger] self.node(o[j] as int).key,
        ) && self.map@[self.node(o[j] as int).key] == o[j] by {
            assert(old_self.map@.contains_key(old_self.node(o[j] as int).key));
        }
        assert(self@ =~= old_self@.update(i, (old_self@[i].0, value)));
    }

    /// Appends a new key at the most recently used end, in a vacant slot.
    #[verifier::rlimit(100)]
    fn insert_new(&mut self, key: K, value: V)
        requires
            old(self).wf(),
            !holds_key(old(self)@, key),
            old(self)@.len() < old(self).spec_capacity(),
        ensures
            final(self).wf(),
            final(self).capacity == old(self).capacity,
            final(self)@ == old(self)@.push((key, value)),
    {
        let ghost old_self = *self;
        let ghost o = self.order@;
        let ghost n = o.len() as int;
        proof {
            self.lemma_index(key);
        }
        let tail = self.tail;
        assert(self.free_slots@.len() > 0);
        let idx = self.free_slots.pop().unwrap();
        assert(old_self.free_slots@[old_self.free_slots@.len() - 1] == idx);
        assert(!o.contains(idx));
        self.items.set(idx, Some(Node { key, value, prev: tail, next: None }));
        self.tail = Some(idx);
        if self.len == 0 {
            self.head = Some(idx);
        }
        self.map.insert(key, idx);
        self.len = self.len + 1;
        if let Some(t) = tail {
            self.set_next(t, Some(idx));
        }
        let ghost o2 = o.push(idx);
        self.order = Ghost(o2);
        assert(o2.no_duplicates());
        assert forall|j: int| 0 <= j <= n implies #[trigger] self.node(o2[j] as int).prev == (
        if j == 0 {
            None
        } else {
            Some(o2[j - 1])
        }) by {
            if j < n {
                assert(o[j] != idx);
                assert(old_self.node(o[j] as int).prev == (if j == 0 { None } else { Some(o[j - 1]) }));
            }
        }
        assert forall|j: int| 0 <= j <= n implies #[trigger] self.node(o2[j] as int).next == (
        if j == n {
            None
        } else {
            Some(o2[j + 1])
        }) by {
            if j < n - 1 {
                assert(o[j] != idx);
                assert(old_self.node(o[j] as int).next == Some(o[j + 1]));
            }
        }
        assert forall|j: int| 0 <= j < n implies #[trigger] self.node(o[j] as int).key
            == old_self.node(o[j] as int).key && self.node(o[j] as int).value
            == old_self.node(o[j] as int).value by {
            assert(o[j] != idx);
        }
        assert forall|s: int|
            0 <= s < self.capacity && (#[trigger] self.items@[s]) is Some implies o2.contains(
            s as usize,
        ) by {
            if s != idx {
                assert(o.contains(s as usize));
                let k = choose|k: int| 0 <= k < n && o[k] == s as usize;
                assert(o2[k] == s as usize);
            } else {
                assert(o2[n] == idx);
            }
        }
        assert forall|j: int|
            0 <= j < self.free_slots@.len() implies (#[trigger] self.free_slots@[j] as int)
            < self.capacity && self.items@[self.free_slots@[j] as int] is None by {
            assert(old_self.free_slots@[j] == self.free_slots@[j]);
        }
        assert forall|k: K| #[trigger] self.map@.contains_key(k) implies (self.map@[k] as int)
            < self.capacity && self.items@[self.map@[k] as int] is Some && self.node(
            self.map@[k] as int,
        ).key == k by {
            if k != key {
                let s = old_self.map@[k];
                assert(o.contains(s));
            }
        }
        assert(self@ =~= old_self@.push((key, value)));
    }

    /// Evicts the least recently used entry and reuses its slot for a new
    /// key, linked at the most recently used end.
    #[verifier::rlimit(100)]
    fn evict_and_insert(&mut self, key: K, value: V)
        requires
            old(self).wf(),
            !holds_key(old(self)@, key),
            old(self)@.len() == old(self).spec_capacity(),
        ensures
            final(self).wf(),
            final(self).capacity == old(self).capacity,
            final(self)@ == old(self)@.drop_first().push((key, value)),
    {
        let ghost old_self = *self;
        let ghost o = self.order@;
        let ghost n = o.len() as int;
        proof {
            self.lemma_index(key);
        }
        let tail = self.tail;
        let head_index = self.head.unwrap();
        let ghost old_key = old_self.node(head_index as int).key;
        assert(old_self.map@.contains_key(old_key));
        assert(old_self.node(o[0] as int).next == (if n == 1 { None } else { Some(o[1]) }));
        let mut cell: Option<Node<K, V>> = None;
        self.items.set_and_swap(head_index, &mut cell);
        let (key_to_remove, new_head) = match cell {
            Some(node) => (node.key, node.next),
            None => (key, None),
        };
        self.map.remove(&key_to_remove);
        let prev = if self.capacity == 1 {
            None
        } else {
            tail
        };
        self.items.set(head_index, Some(Node { key, value, prev, next: None }));
        self.map.insert(key, head_index);
        if let Some(nh) = new_head {
            self.tail = Some(head_index);
            self.head = Some(nh);
            self.set_prev(nh, None);
            self.set_next(tail.unwrap(), Some(head_index));
        }
        let ghost o2 = o.drop_first().push(head_index);
        self.order = Ghost(o2);
        assert(forall|j: int| 0 <= j < n - 1 ==> o2[j] == o[j + 1]);
        assert(o2[n - 1] == head_index);
        assert forall|j: int, l: int| 0 <= j < l < n implies o2[j] != o2[l] by {
            if l < n - 1 {
                assert(o[j + 1] != o[l + 1]);
            } else {
                assert(o[j + 1] != o[0]);
            }
        }
        assert forall|j: int| 0 <= j < n implies #[trigger] self.node(o2[j] as int).prev == (
        if j == 0 {
            None
        } else {
            Some(o2[j - 1])
        }) by {
            if 0 < j < n - 1 {
                assert(old_self.node(o[j + 1] as int).prev == Some(o[j]));
            }
        }
        assert forall|j: int| 0 <= j < n implies #[trigger] self.node(o2[j] as int).next == (
        if j == n - 1 {
            None
        } else {
            Some(o2[j + 1])
        }) by {
            if j < n - 2 {
                assert(old_self.node(o[j + 1] as int).next == Some(o[j + 2]));
            }
        }
        assert forall|j: int| 0 <= j < n - 1 implies #[trigger] self.node(o[j + 1] as int).key
            == old_self.node(o[j + 1] as int).key && self.node(o[j + 1] as int).value
            == old_self.node(o[j + 1] as int).value by {
            assert(o[j + 1] != o[0]);
        }
        assert forall|s: int|
            0 <= s < self.capacity && (#[trigger] self.items@[s]) is Some implies o2.contains(
            s as usize,
        ) by {
            assert(o.contains(s as usize));
            let k = choose|k: int| 0 <= k < n && o[k] == s as usize;
            if k == 0 {
                assert(o2[n - 1] == s as usize);
            } else {
                assert(o2[k - 1] == s as usize);
            }
        }
        assert forall|j: int|
            0 <= j < self.free_slots@.len() implies (#[trigger] self.free_slots@[j] as int)
            < self.capacity && self.items@[self.free_slots@[j] as int] is None by {
            assert(old_self.items@[old_self.free_slots@[j] as int] is None);
        }
        assert forall|j: int| 0 <= j < n implies self.map@.contains_key(
            #[trigger] self.node(o2[j] as int).key,
        ) && self.map@[self.node(o2[j] as int).key] == o2[j] by {
            if j < n - 1 {
                assert(old_self.map@.contains_key(old_self.node(o[j + 1] as int).key));
                assert(old_self.node(o[j + 1] as int).key != old_key);
            }
        }
        assert forall|k: K| #[trigger] self.map@.contains_key(k) implies (self.map@[k] as int)
            < self.capacity && self.items@[self.map@[k] as int] is Some && self.node(
            self.map@[k] as int,
        ).key == k by {
            if k != key {
                let s = old_self.map@[k];
                assert(o.contains(s));
                assert(s != head_index);
            }
        }
        assert(self.map@.dom() =~= old_self.map@.dom().remove(old_key).insert(key));
        assert(self@ =~= old_self@.drop_first().push((key, value)));
    }

    /// Makes the entry in slot `index` the most recently used one.
    #[verifier::rlimit(100)]
    fn move_to_tail(&mut self, index: usize, Ghost(i): Ghost<int>)
        requires
            old(self).wf(),
            0 <= i < old(self).order@.len(),
            old(self).order@[i] == index,
        ensures
            final(self).wf(),
            final(self).order@ == old(self).order@.remove(i).push(index),
            final(self).same_entries(old(self)),
            final(self).same_index(old(self)),
            final(self)@ == old(self)@.remove(i).push(old(self)@[i]),
    {
        let ghost o = self.order@;
        let ghost n = o.len() as int;
        let ghost old_self = *self;
        if self.tail == Some(index) {
            assert(o.remove(i).push(index) =~= o);
            assert(self@.remove(i).push(self@[i]) =~= self@);
            return;
        }
        assert(i < n - 1);
        assert(self.node(o[i] as int).next == Some(o[i + 1]));
        assert(self.node(o[i] as int).prev == (if i == 0 { None } else { Some(o[i - 1]) }));
        let (index_prev, index_next) = match &self.items[index] {
            Some(node) => (node.prev, node.next),
            None => (None, None),
        };
        let nxt = index_next.unwrap();
        assert(nxt == o[i + 1]);
        let old_tail = self.tail.unwrap();
        assert(old_tail == o[n - 1]);
        match index_prev {
            Some(p) => {
                assert(p == o[i - 1]);
                self.set_prev(nxt, Some(p));
                self.set_next(p, Some(nxt));
            },
            None => {
                self.set_prev(nxt, None);
                self.head = Some(nxt);
            },
        }
        self.set_prev(index, Some(old_tail));
        self.set_next(index, None);
        self.set_next(old_tail, Some(index));
        self.tail = Some(index);
        let ghost o2 = o.remove(i).push(index);
        self.order = Ghost(o2);
        assert(forall|j: int| 0 <= j < i ==> o2[j] == o[j]);
        assert(forall|j: int| i <= j < n - 1 ==> o2[j] == o[j + 1]);
        assert(o2[n - 1] == index);
        assert(o2.no_duplicates());
        assert(forall|j: int|
            0 <= j < n ==> (#[trigger] o2[j] as int) < self.capacity && self.items@[o2[j] as int] is Some);
        assert forall|s: int|
            0 <= s < self.capacity && (#[trigger] self.items@[s]) is Some implies o2.contains(
            s as usize,
        ) by {
            assert(old_self.items@[s] is Some);
            assert(o.contains(s as usize));
            let k = choose|k: int| 0 <= k < n && o[k] == s as usize;
            if k < i {
                assert(o2[k] == s as usize);
            } else if k == i {
                assert(o2[n - 1] == s as usize);
            } else {
                assert(o2[k - 1] == s as usize);
            }
        }
        assert forall|j: int| 0 <= j < n implies #[trigger] self.node(o2[j] as int).prev == (
        if j == 0 {
            None
        } else {
            Some(o2[j - 1])
        }) by {
            if j < i {
                assert(old_self.node(o[j] as int).prev == (if j == 0 {
                    None
                } else {
                    Some(o[j - 1])
                }));
            } else if j == n - 1 {
            } else if j == i {
                assert(o2[j] == nxt);
            } else {
                assert(old_self.node(o[j + 1] as int).prev == Some(o[j]));
            }
        }
        assert forall|j: int| 0 <= j < n implies #[trigger] self.node(o2[j] as int).next == (
        if j == n - 1 {
            None
        } else {
            Some(o2[j + 1])
        }) by {
            if j < i - 1 {
                assert(old_self.node(o[j] as int).next == Some(o[j + 1]));
            } else if j == i - 1 {
                assert(o2[j] == o[i - 1]);
            } else if j == n - 1 {
            } else if j == n - 2 {
                assert(o2[j] == old_tail);
            } else {
                assert(old_self.node(o[j + 1] as int).next == Some(o[j + 2]));
            }
        }
        assert forall|j: int| 0 <= j < n implies self.map@.contains_key(
            #[trigger] self.node(o2[j] as int).key,
        ) && self.map@[self.node(o2[j] as int).key] == o2[j] by {
            let k = if j < i { j } else if j == n - 1 { i } else { j + 1 };
            assert(o2[j] == o[k]);
            assert(old_self.map@.contains_key(old_self.node(o[k] as int).key));
        }
    }
}

impl<K: Copy + Eq + Hash, V> LruCache<K, V> {
    /// An empty cache that holds up to `capacity` entries.
    ///
    /// The key type must hash and compare consistently with its value.
    pub fn new(capacity: usize) -> (r: Self)
        requires
            capacity >= 1,
            obeys_key_model::<K>(),
        ensures
            r.wf(),
            r@ == Seq::<(K, V)>::empty(),
            r.spec_capacity() == capacity,
    {
        let mut items: Vec<Option<Node<K, V>>> = Vec::with_capacity(capacity);
        let mut i: usize = 0;
        while i < capacity
            invariant
                i <= capacity,
                items@.len() == i,
                forall|s: int| 0 <= s < i ==> (#[trigger] items@[s]) is None,
            decreases capacity - i,
        {
            items.push(None);
            i = i + 1;
        }
        let mut free_slots: Vec<usize> = Vec::with_capacity(capacity);
        let mut j: usize = capacity;
        while j > 0
            invariant
                j <= capacity,
                free_slots@.len() == capacity - j,
                forall|f: int|
                    0 <= f < free_slots@.len() ==> #[trigger] free_slots@[f] == capacity - 1 - f,
            decreases j,
        {
            j = j - 1;
            free_slots.push(j);
        }
        let r = LruCache {
            items,
            map: HashMap::with_capacity(capacity),
            free_slots,
            head: None,
            tail: None,
            len: 0,
            capacity,
            order: Ghost(Seq::empty()),
        };
        assert(r.free_slots@.no_duplicates());
        assert(r@ =~= Seq::<(K, V)>::empty());
        r
    }

    /// An empty cache that holds up to `capacity` entries, or
    /// `InvalidCapacity` when `capacity` is zero.
    pub fn try_new(capacity: usize) -> (r: Result<Self, CapacityError>)
        requires
            obeys_key_model::<K>(),
        ensures
            r is Err <==> capacity == 0,
            r matches Err(e) ==> e == CapacityError::InvalidCapacity,
            r matches Ok(c) ==> c.wf() && c@ == Seq::<(K, V)>::empty() && c.spec_capacity()
                == capacity,
    {
        if capacity == 0 {
            Err(CapacityError::InvalidCapacity)
        } else {
            Ok(Self::new(capacity))
        }
    }

    /// Stores `value` under `key` and makes `key` the most recently used.
    ///
    /// An existing key keeps its slot and gets the new value. A new key goes
    /// to a vacant slot, or, when the cache is full, replaces the least
    /// recently used entry.
    pub fn write(&mut self, key: K, value: V)
        requires
            old(self).wf(),
        ensures
            final(self).wf(),
            final(self).spec_capacity() == old(self).spec_capacity(),
            final(self)@ == written(old(self)@, old(self).spec_capacity(), key, value),
    {
        proof {
            self.lemma_index(key);
        }
        let found = match self.map.get(&key) {
            Some(s) => Some(*s),
            None => None,
        };
        match found {
            Some(s) => {
                let ghost i = key_position(self@, key);
                self.set_value(s, value, Ghost(i));
                self.move_to_tail(s, Ghost(i));
            },
            None => {
                if self.len == self.capacity {
                    self.evict_and_insert(key, value);
                } else {
                    self.insert_new(key, value);
                }
            },
        }
    }

    /// The value under `key`, which becomes the most recently used; `None`,
    /// with nothing changed, when the key is absent.
    pub fn read(&mut self, key: &K) -> (r: Option<&V>)
        requires
            old(self).wf(),
        ensures
            final(self).wf(),
            final(self).spec_capacity() == old(self).spec_capacity(),
            final(self)@ == promoted(old(self)@, *key),
            r is Some <==> holds_key(old(self)@, *key),
            r matches Some(v) ==> *v == value_of(old(self)@, *key),
            r is None ==> *final(self) == *old(self),
    {
        proof {
            self.lemma_index(*key);
        }
        let index = match self.map.get(key) {
            Some(s) => *s,
            None => {
                return None;
            },
        };
        let ghost i = key_position(self@, *key);
        self.move_to_tail(index, Ghost(i));
        match &self.items[index] {
            Some(node) => Some(&node.value),
            None => None,
        }
    }

    /// Removes the entry under `key` and returns its slot to the pool of
    /// vacant slots; `NotFound`, with nothing changed, when the key is absent.
    #[verifier::rlimit(100)]
    pub fn delete(&mut self, key: &K) -> (r: Result<(), DeleteError>)
        requires
            old(self).wf(),
        ensures
            final(self).wf(),
            final(self).spec_capacity() == old(self).spec_capacity(),
            final(self)@ == deleted(old(self)@, *key),
            r is Ok <==> holds_key(old(self)@, *key),
            r matches Err(e) ==> e == DeleteError::NotFound && *final(self) == *old(self),
    {
        proof {
            self.lemma_index(*key);
        }
        let index = match self.map.get(key) {
            Some(s) => *s,
            None => {
                return Err(DeleteError::NotFound);
            },
        };
        let ghost old_self = *self;
        let ghost o = self.order@;
        let ghost n = o.len() as int;
        let ghost i = key_position(self@, *key);
        assert(o[i] == index);
        assert(old_self.node(o[i] as int).prev == (if i == 0 { None } else { Some(o[i - 1]) }));
        assert(old_self.node(o[i] as int).next == (if i == n - 1 { None } else { Some(o[i + 1]) }));
        let (prev, next) = match &self.items[index] {
            Some(node) => (node.prev, node.next),
            None => (None, None),
        };
        if let Some(p) = prev {
            self.set_next(p, next);
        }
        if let Some(nx) = next {
            self.set_prev(nx, prev);
        }
        self.map.remove(key);
        self.items.set(index, None);
        self.free_slots.push(index);
        if self.head == Some(index) {
            self.head = next;
        }
        if self.tail == Some(index) {
            self.tail = prev;
        }
        self.len = self.len - 1;
        let ghost o2 = o.remove(i);
        self.order = Ghost(o2);
        assert(forall|j: int| 0 <= j < i ==> o2[j] == o[j]);
        assert(forall|j: int| i <= j < n - 1 ==> o2[j] == o[j + 1]);
        assert forall|j: int, l: int| 0 <= j < l < n - 1 implies o2[j] != o2[l] by {
            let a = if j < i { j } else { j + 1 };
            let b = if l < i { l } else { l + 1 };
            assert(o[a] != o[b]);
        }
        assert forall|j: int| 0 <= j < n - 1 implies #[trigger] self.node(o2[j] as int).prev == (
        if j == 0 {
            None
        } else {
            Some(o2[j - 1])
        }) by {
            if j < i {
                assert(o[j] != index);
                assert(old_self.node(o[j] as int).prev == (if j == 0 { None } else { Some(o[j - 1]) }));
            } else if j > i {
                assert(o[j + 1] != index);
                assert(old_self.node(o[j + 1] as int).prev == Some(o[j]));
            }
        }
        assert forall|j: int| 0 <= j < n - 1 implies #[trigger] self.node(o2[j] as int).next == (
        if j == n - 2 {
            None
        } else {
            Some(o2[j + 1])
        }) by {
            if j < i - 1 {
                assert(o[j] != index);
                assert(old_self.node(o[j] as int).next == Some(o[j + 1]));
            } else if j >= i {
                assert(o[j + 1] != index);
                assert(old_self.node(o[j + 1] as int).next == (if j + 1 == n - 1 { None } else { Some(o[j + 2]) }));
            }
        }
        assert forall|j: int| 0 <= j < n - 1 implies #[trigger] self.node(o2[j] as int).key
            == old_self.node(o2[j] as int).key && self.node(o2[j] as int).value
            == old_self.node(o2[j] as int).value && self.items@[o2[j] as int] is Some by {
            let a = if j < i { j } else { j + 1 };
            assert(o[a] != index);
        }
        assert forall|s: int|
            0 <= s < self.capacity && (#[trigger] self.items@[s]) is Some implies o2.contains(
            s as usize,
        ) by {
            assert(o.contains(s as usize));
            let k = choose|k: int| 0 <= k < n && o[k] == s as usize;
            if k < i {
                assert(o2[k] == s as usize);
            } else {
                assert(o2[k - 1] == s as usize);
            }
        }
        assert forall|j: int|
            0 <= j < self.free_slots@.len() implies (#[trigger] self.free_slots@[j] as int)
            < self.capacity && self.items@[self.free_slots@[j] as int] is None by {
            if j < self.free_slots@.len() - 1 {
                assert(old_self.items@[old_self.free_slots@[j] as int] is None);
            }
        }
        assert forall|j: int, l: int| 0 <= j < l < self.free_slots@.len() implies self.free_slots@[j] != self.free_slots@[l] by {
            if l == self.free_slots@.len() - 1 {
                assert(old_self.items@[old_self.free_slots@[j] as int] is None);
            }
        }
        assert forall|j: int| 0 <= j < n - 1 implies self.map@.contains_key(
            #[trigger] self.node(o2[j] as int).key,
        ) && self.map@[self.node(o2[j] as int).key] == o2[j] by {
            let a = if j < i { j } else { j + 1 };
            assert(old_self.map@.contains_key(old_self.node(o[a] as int).key));
            assert(old_self.map@[old_self.node(o[a] as int).key] == o[a]);
        }
        assert forall|k: K| #[trigger] self.map@.contains_key(k) implies (self.map@[k] as int)
            < self.capacity && self.items@[self.map@[k] as int] is Some && self.node(
            self.map@[k] as int,
        ).key == k by {
            let s = old_self.map@[k];
            assert(o.contains(s));
            assert(s != index);
        }
        assert(self.map@.dom() =~= old_self.map@.dom().remove(*key));
        proof {
            lemma_key_position(old_self@, i);
        }
        assert(self@ =~= old_self@.remove(i));
        Ok(())
    }

    /// Discards every entry; the cache is then as freshly constructed.
    pub fn clear(&mut self)
        requires
            old(self).wf(),
        ensures
            final(self).wf(),
            final(self).spec_capacity() == old(self).spec_capacity(),
            final(self)@ == Seq::<(K, V)>::empty(),
    {
        let capacity = self.capacity;
        let mut i: usize = 0;
        while i < capacity
            invariant
                capacity == self.capacity,
                self.items@.len() == capacity,
                i <= capacity,
                forall|s: int| 0 <= s < i ==> (#[trigger] self.items@[s]) is None,
            decreases capacity - i,
        {
            self.items.set(i, None);
            i = i + 1;
        }
        self.map.clear();
        let mut free_slots: Vec<usize> = Vec::with_capacity(capacity);
        let mut j: usize = capacity;
        while j > 0
            invariant
                j <= capacity,
                free_slots@.len() == capacity - j,
                forall|f: int|
                    0 <= f < free_slots@.len() ==> #[trigger] free_slots@[f] == capacity - 1 - f,
            decreases j,
        {
            j = j - 1;
            free_slots.push(j);
        }
        self.free_slots = free_slots;
        self.head = None;
        self.tail = None;
        self.len = 0;
        self.order = Ghost(Seq::empty());
        assert(self.free_slots@.no_duplicates());
        assert(self@ =~= Seq::<(K, V)>::empty());
    }

    /// The largest number of entries the cache holds.
    pub fn capacity(&self) -> (r: usize)
        requires
            self.wf(),
        ensures
            r == self.spec_capacity(),
    {
        self.capacity
    }

    /// The number of keys in the key index.
    pub fn key_count(&self) -> (r: usize)
        requires
            self.wf(),
        ensures
            r == self@.len(),
    {
        self.map.len()
    }

    /// The number of vacant slots ready for reuse.
    pub fn free_slot_count(&self) -> (r: usize)
        requires
            self.wf(),
        ensures
            r == self.spec_capacity() - self@.len(),
    {
        self.free_slots.len()
    }

    /// The slot arena.
    pub fn slots(&self) -> (r: &Vec<Option<Node<K, V>>>)
        requires
            self.wf(),
        ensures
            r@ == self.spec_slots(),
            r@.len() == self.spec_capacity(),
    {
        &self.items
    }

    /// The slot of the least recently used entry, `None` when empty.
    pub fn head(&self) -> (r: Option<usize>)
        requires
            self.wf(),
        ensures
            r == self.spec_head(),
            r is None <==> self@.len() == 0,
            r matches Some(h) ==> h < self.spec_capacity() && self.spec_slots()[h as int] is Some
                && (self.spec_slots()[h as int]->Some_0.key, self.spec_slots()[h as int]->Some_0.value)
                == self@[0],
    {
        self.head
    }

    /// The slot of the most recently used entry, `None` when empty.
    pub fn tail(&self) -> (r: Option<usize>)
        requires
            self.wf(),
        ensures
            r == self.spec_tail(),
            r is None <==> self@.len() == 0,
            r matches Some(t) ==> t < self.spec_capacity() && self.spec_slots()[t as int] is Some
                && (self.spec_slots()[t as int]->Some_0.key, self.spec_slots()[t as int]->Some_0.value)
                == self@.last(),
    {
        self.tail
    }

    /// The slot that holds `key`, `None` when the key is absent.
    pub fn slot_of(&self, key: &K) -> (r: Option<usize>)
        requires
            self.wf(),
        ensures
            r is Some <==> holds_key(self@, *key),
            r matches Some(s) ==> s < self.spec_capacity() && self.spec_slots()[s as int] is Some
                && self.spec_slots()[s as int]->Some_0.key == *key,
    {
        proof {
            self.lemma_index(*key);
        }
        match self.map.get(key) {
            Some(s) => Some(*s),
            None => None,
        }
    }

    /// Every cache keeps at most its capacity of entries, under distinct keys.
    pub proof fn lemma_bounded_and_unique(&self)
        requires
            self.wf(),
        ensures
            self@.len() <= self.spec_capacity(),
            keys_unique(self@),
    {
        let o = self.order@;
        assert forall|i: int, j: int|
            0 <= i < self@.len() && 0 <= j < self@.len() && i != j implies #[trigger] self@[i].0
            != #[trigger] self@[j].0 by {
            assert(self.map@[self.node(o[i] as int).key] == o[i]);
            assert(self.map@[self.node(o[j] as int).key] == o[j]);
        }
    }

    /// The walk from the `i`-th least recently used entry visits the rest
    /// of the recency order.
    proof fn lemma_walk_suffix(&self, i: int)
        requires
            self.wf(),
            0 <= i <= self.order@.len(),
        ensures
            walk(
                self.items@,
                if i < self.order@.len() {
                    Some(self.order@[i])
                } else {
                    None
                },
                (self.order@.len() - i) as nat,
            ) == self.order@.subrange(i, self.order@.len() as int),
        decreases self.order@.len() - i,
    {
        let o = self.order@;
        let n = o.len() as int;
        if i < n {
            self.lemma_walk_suffix(i + 1);
            assert(self.node(o[i] as int).next == (if i == n - 1 { None } else { Some(o[i + 1]) }));
            assert(o.subrange(i, n) =~= seq![o[i]] + o.subrange(i + 1, n));
        } else {
            assert(o.subrange(i, n) =~= Seq::<usize>::empty());
        }
    }

    /// Walking the recency list from the head visits every live entry
    /// exactly once, from least to most recently used: the head has no
    /// `prev`, and the walk ends at the tail, which has no `next`.
    pub proof fn lemma_recency_walk(&self)
        requires
            self.wf(),
        ensures
            ({
                let w = walk(self.spec_slots(), self.spec_head(), self@.len());
                &&& w.no_duplicates()
                &&& w.len() == self@.len()
                &&& forall|j: int|
                    #![trigger w[j]]
                    0 <= j < w.len() ==> (self.spec_slots()[w[j] as int]->Some_0.key,
                    self.spec_slots()[w[j] as int]->Some_0.value) == self@[j]
                &&& self@.len() > 0 ==> self.spec_tail() == Some(w.last())
                    && self.spec_slots()[w.last() as int]->Some_0.next is None
                    && self.spec_slots()[w[0] as int]->Some_0.prev is None
            }),
            keys_unique(self@),
    {
        self.lemma_walk_suffix(0);
        let o = self.order@;
        let n = o.len() as int;
        assert(o.subrange(0, n) =~= o);
        let w = walk(self.spec_slots(), self.spec_head(), self@.len());
        assert(w == o);
        assert forall|j: int| #![trigger w[j]] 0 <= j < w.len() implies (
        self.spec_slots()[w[j] as int]->Some_0.key, self.spec_slots()[w[j] as int]->Some_0.value)
            == self@[j] by {
            assert(self@[j] == self.entry(o[j] as int));
        }
        if n > 0 {
            assert(self.node(o[n - 1] as int).next is None);
            assert(self.node(o[0] as int).prev is None);
        }
        self.lemma_bounded_and_unique();
    }

    /// The number of live entries.
    pub fn len(&self) -> (r: usize)
        requires
            self.wf(),
        ensures
            r == self@.len(),
    {
        self.len
    }

    /// Whether the cache holds no entry.
    pub fn is_empty(&self) -> (r: bool)
        requires
            self.wf(),
        ensures
            r == (self@.len() == 0),
    {
        self.len == 0
    }
}

} // verus!
