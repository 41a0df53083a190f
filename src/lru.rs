//! A least-recently-used cache built from a logical clock: every entry carries the
//! instant of its latest access, and an ordered map from instants to keys names the
//! eviction candidate as its smallest instant.

use std::collections::BTreeMap;
use std::collections::HashMap;
use std::hash::Hash;
use vstd::prelude::*;
use vstd::std_specs::cmp::OrdSpec;
use vstd::std_specs::iter::IteratorSpec;

verus! {

broadcast use {
    vstd::std_specs::hash::group_hash_axioms,
    vstd::std_specs::btree::group_btree_axioms,
    vstd::laws_cmp::group_laws_cmp,
    vstd::map::group_map_axioms,
    vstd::map_lib::group_map_properties,
};

/// The abstract state of a cache: its capacity, its clock, the stored values and,
/// for each stored key, the instant of its latest access.
#[verifier::reject_recursive_types(K)]
pub ghost struct CacheState<K, V> {
    pub capacity: nat,
    pub clock: nat,
    pub values: Map<K, V>,
    pub stamps: Map<K, nat>,
}

/// Key types whose hashing and equality behave as on plain values, and whose
/// clones are equal to the value cloned.
pub open spec fn key_semantics<K: Clone>() -> bool {
    &&& vstd::std_specs::hash::obeys_key_model::<K>()
    &&& forall|a: K, b: K| #[trigger] vstd::pervasive::strictly_cloned(a, b) ==> a == b
}

impl<K, V> CacheState<K, V> {
    /// The state is reachable: one stamp per stored key, all stamps distinct and
    /// earlier than the clock, and no more keys than the capacity.
    pub open spec fn valid(self) -> bool {
        &&& self.capacity > 0
        &&& self.values.dom().finite()
        &&& self.values.dom() == self.stamps.dom()
        &&& self.values.len() <= self.capacity
        &&& forall|k: K| #[trigger] self.stamps.contains_key(k) ==> self.stamps[k] < self.clock
        &&& forall|a: K, b: K|
            #[trigger] self.stamps.contains_key(a) && #[trigger] self.stamps.contains_key(b) && a
                != b ==> self.stamps[a] != self.stamps[b]
    }
}

impl<K, V> CacheState<K, V> {
    /// `k` is stored and no stored key has a smaller stamp.
    pub open spec fn is_oldest(self, k: K) -> bool {
        &&& self.stamps.contains_key(k)
        &&& forall|j: K| #[trigger] self.stamps.contains_key(j) ==> self.stamps[k] <= self.stamps[j]
    }

    /// The least recently used key: the eviction candidate.
    pub open spec fn oldest(self) -> K {
        choose|k: K| self.is_oldest(k)
    }

    /// The state after `key` is accessed: it takes the current clock as its stamp,
    /// and the clock advances.
    pub open spec fn touch(self, key: K) -> CacheState<K, V> {
        CacheState {
            capacity: self.capacity,
            clock: self.clock + 1,
            values: self.values,
            stamps: self.stamps.insert(key, self.clock),
        }
    }

    /// The state after a lookup of `key`: touched on a hit, unchanged on a miss.
    pub open spec fn after_get(self, key: K) -> CacheState<K, V> {
        if self.values.contains_key(key) {
            self.touch(key)
        } else {
            self
        }
    }

    /// What a lookup of `key` returns.
    pub open spec fn lookup(self, key: K) -> Option<V> {
        if self.values.contains_key(key) {
            Some(self.values[key])
        } else {
            None
        }
    }

    /// Whether storing `key` must evict: the key is new and the cache is full.
    pub open spec fn must_evict(self, key: K) -> bool {
        !self.values.contains_key(key) && self.values.len() == self.capacity
    }

    /// The state after storing `val` under `key`: the key is stored and touched,
    /// and where that would exceed the capacity the least recently used key of the
    /// state before goes.
    pub open spec fn after_insert(self, key: K, val: V) -> CacheState<K, V> {
        let stored = CacheState {
            capacity: self.capacity,
            clock: self.clock + 1,
            values: self.values.insert(key, val),
            stamps: self.stamps.insert(key, self.clock),
        };
        if self.must_evict(key) {
            let victim = self.oldest();
            CacheState {
                capacity: stored.capacity,
                clock: stored.clock,
                values: stored.values.remove(victim),
                stamps: stored.stamps.remove(victim),
            }
        } else {
            stored
        }
    }
}

struct CacheEntry<V> {
    // cached value
    val: V,
    // clock instant of the entry's latest access
    instant: u64,
}

pub struct LRUCache<K: Eq + Hash + Clone, V> {
    // maximum number of entries held
    capacity: usize,
    // logical clock, advanced on every access that finds or stores an entry
    clock: u64,
    // key -> (value, instant of latest access)
    data: HashMap<K, CacheEntry<V>>,
    // instant of latest access -> key; its smallest instant names the eviction candidate
    order: BTreeMap<u64, K>,
}

impl<K: Eq + Hash + Clone, V> View for LRUCache<K, V> {
    type V = CacheState<K, V>;

    closed spec fn view(&self) -> CacheState<K, V> {
        CacheState {
            capacity: self.capacity as nat,
            clock: self.clock as nat,
            values: self.data@.map_values(|e: CacheEntry<V>| e.val),
            stamps: self.data@.map_values(|e: CacheEntry<V>| e.instant as nat),
        }
    }
}

impl<K: Eq + Hash + Clone, V> LRUCache<K, V> {
    /// The two indexes agree: each stored key owns exactly the instant that the
    /// ordered map sends back to it.
    pub closed spec fn indexes_agree(&self) -> bool {
        &&& key_semantics::<K>()
        &&& self.data@.len() == self.order@.len()
        &&& forall|k: K| #[trigger]
            self.data@.contains_key(k) ==> {
                &&& self.order@.contains_key(self.data@[k].instant)
                &&& self.order@[self.data@[k].instant] == k
            }
        &&& forall|t: u64| #[trigger]
            self.order@.contains_key(t) ==> {
                &&& self.data@.contains_key(self.order@[t])
                &&& self.data@[self.order@[t]].instant == t
            }
    }

    /// Well-formedness: the indexes agree and the abstract state is valid.
    pub open spec fn wf(&self) -> bool {
        &&& self.indexes_agree()
        &&& self@.valid()
    }

    /// An empty cache that holds at most `capacity` entries.
    pub fn new(capacity: usize) -> (r: LRUCache<K, V>)
        requires
            capacity > 0,
            key_semantics::<K>(),
        ensures
            r.wf(),
            r@.capacity == capacity,
            r@.clock == 0,
            r@.values == Map::<K, V>::empty(),
            r@.stamps == Map::<K, nat>::empty(),
    {
        let r = LRUCache {
            capacity: capacity,
            clock: 0,
            data: HashMap::with_capacity(capacity),
            order: BTreeMap::new(),
        };
        proof {
            assert(r@.values =~= Map::<K, V>::empty());
            assert(r@.stamps =~= Map::<K, nat>::empty());
        }
        r
    }

    /// Looks `key` up. On a hit the entry becomes the most recently used and its
    /// value is returned; on a miss nothing changes.
    pub fn get(&mut self, key: K) -> (r: Option<&V>)
        requires
            old(self).wf(),
            old(self)@.values.contains_key(key) ==> old(self)@.clock < u64::MAX,
        ensures
            final(self).wf(),
            final(self)@ == old(self)@.after_get(key),
            match r {
                Some(v) => old(self)@.lookup(key) == Some(*v),
                None => old(self)@.lookup(key) is None,
            },
    {
        let now = self.clock;
        let ghost pre = self@;
        let ghost data0 = self.data@;
        let ghost order0 = self.order@;
        proof {
            self.lemma_clock_unused();
        }
        match self.data.remove(&key) {
            Some(entry) => {
                let k = self.order.remove(&entry.instant).unwrap();
                assert(k == key);
                self.clock = now + 1;
                self.data.insert(k, CacheEntry { val: entry.val, instant: now });
                proof {
                    assert(self.data@ =~= data0.insert(key, CacheEntry { val: entry.val, instant: now }));
                    assert(self@.values =~= pre.values);
                    assert(self@.stamps =~= pre.stamps.insert(key, now as nat));
                }
                let r = match self.data.get(&key) {
                    Some(e) => Some(&e.val),
                    None => None,
                };
                self.order.insert(now, key);
                proof {
                    assert(self.order@ =~= order0.remove(data0[key].instant).insert(now, key));
                    assert(self.order@.len() == self.data@.len());
                }
                r
            },
            None => {
                proof {
                    assert(self.data@ =~= data0);
                }
                None
            },
        }
    }

    /// Stores `val` under `key` and makes the entry the most recently used. A new
    /// key that would exceed the capacity evicts the least recently used entry.
    pub fn insert(&mut self, key: K, val: V)
        requires
            old(self).wf(),
            old(self)@.clock < u64::MAX,
        ensures
            final(self).wf(),
            final(self)@ == old(self)@.after_insert(key, val),
    {
        let now = self.clock;
        let ghost pre = self@;
        let ghost data0 = self.data@;
        let ghost order0 = self.order@;
        proof {
            self.lemma_clock_unused();
        }
        match self.data.remove(&key) {
            Some(entry) => {
                let k = self.order.remove(&entry.instant).unwrap();
                self.data.insert(k, CacheEntry { val, instant: now });
                self.order.insert(now, key);
                proof {
                    assert(self.data@ =~= data0.insert(key, CacheEntry { val, instant: now }));
                    assert(self.order@ =~= order0.remove(data0[key].instant).insert(now, key));
                    assert(self@.values =~= pre.values.insert(key, val));
                    assert(self@.stamps =~= pre.stamps.insert(key, now as nat));
                }
            },
            None => {
                assert(self.data@ =~= data0);
                assert(self@.values.dom() == self.data@.dom());
                if self.data.len() == self.capacity {
                    self.evict_oldest();
                }
                let ghost mid = self@;
                let ghost data1 = self.data@;
                let ghost order1 = self.order@;
                proof {
                    self.lemma_clock_unused();
                    assert(mid.values.dom() == data1.dom());
                }
                let copy = key.clone();
                assert(vstd::pervasive::strictly_cloned(key, copy));
                assert(copy == key);
                self.order.insert(now, copy);
                self.data.insert(key, CacheEntry { val, instant: now });
                proof {
                    assert(self.data@ =~= data1.insert(key, CacheEntry { val, instant: now }));
                    assert(self@.values =~= mid.values.insert(key, val));
                    assert(self@.stamps =~= mid.stamps.insert(key, now as nat));
                    assert(self.order@ =~= order1.insert(now, key));
                    assert(self.data@.len() == data1.len() + 1);
                    assert(self.order@.len() == order1.len() + 1);
                    let expect = pre.after_insert(key, val);
                    if pre.must_evict(key) {
                        let v = pre.oldest();
                        assert(pre.stamps.contains_key(v));
                        assert(v != key);
                        assert(self@.values =~= expect.values);
                        assert(self@.stamps =~= expect.stamps);
                    }
                }
            },
        }
        self.clock = now + 1;
    }

    /// No stored entry holds the current clock as its instant.
    proof fn lemma_clock_unused(&self)
        requires
            self.wf(),
        ensures
            !self.order@.contains_key(self.clock),
    {
        if self.order@.contains_key(self.clock) {
            let j = self.order@[self.clock];
            assert(self@.stamps.contains_key(j));
        }
    }

    /// Removes the entry with the smallest instant from both indexes.
    fn evict_oldest(&mut self)
        requires
            old(self).wf(),
            old(self)@.values.len() > 0,
        ensures
            final(self).wf(),
            final(self)@ == ({
                let victim = old(self)@.oldest();
                CacheState {
                    capacity: old(self)@.capacity,
                    clock: old(self)@.clock,
                    values: old(self)@.values.remove(victim),
                    stamps: old(self)@.stamps.remove(victim),
                }
            }),
            old(self)@.is_oldest(old(self)@.oldest()),
    {
        let ghost pre = self@;
        let ghost data0 = self.data@;
        let ghost order0 = self.order@;
        assert(self.data@.dom() == pre.values.dom());
        let t = self.first_instant();
        let victim = self.order.remove(&t).unwrap();
        self.data.remove(&victim);
        proof {
            assert(pre.is_oldest(victim)) by {
                assert forall|j: K| #[trigger] pre.stamps.contains_key(j) implies pre.stamps[victim]
                    <= pre.stamps[j] by {
                    assert(order0.contains_key(data0[j].instant));
                }
            }
            let o = pre.oldest();
            assert(pre.is_oldest(o));
            assert(pre.stamps[o] <= pre.stamps[victim] && pre.stamps[victim] <= pre.stamps[o]);
            assert(o == victim);
            assert(self.data@ =~= data0.remove(victim));
            assert(self.order@ =~= order0.remove(t));
            assert(self@.values =~= pre.values.remove(victim));
            assert(self@.stamps =~= pre.stamps.remove(victim));
        }
    }

    /// The logical clock: the number of accesses that found or stored an entry.
    pub fn clock(&self) -> (r: u64)
        ensures
            r == self@.clock,
    {
        self.clock
    }

    /// The smallest instant in the ordered map, which must not be empty.
    fn first_instant(&self) -> (r: u64)
        requires
            self.order@.len() > 0,
        ensures
            self.order@.contains_key(r),
            forall|t: u64| #[trigger] self.order@.contains_key(t) ==> r <= t,
    {
        let ghost keys0 = vstd::std_specs::btree::spec_keys_iter(&self.order).remaining();
        let mut r: u64 = 0;
        let mut found = false;
        for t in it: self.order.keys()
            invariant_except_break
                it.index() == 0,
                !found,
                it.seq() == keys0,
            ensures
                it.seq() == keys0,
                found ==> r == *keys0[0] && keys0.len() > 0,
                !found ==> keys0.len() == 0,
        {
            r = *t;
            found = true;
            break;
        }
        let ghost seen = keys0.unref();
        assert(seen.to_set() == self.order@.dom());
        assert(seen.len() == self.order@.dom().len());
        assert(found);
        assert forall|u: u64| #[trigger] self.order@.contains_key(u) implies r <= u by {
            assert(seen.to_set().contains(u));
            let j = choose|j: int| 0 <= j < seen.len() && seen[j] == u;
            if j > 0 {
                assert(vstd::laws_cmp::obeys_cmp::<u64>());
                assert(vstd::laws_cmp::obeys_cmp::<&u64>());
                assert(vstd::std_specs::btree::increasing_seq(keys0));
                assert(OrdSpec::cmp_spec(&keys0[0], &keys0[j]) is Less);
            }
        }
        assert(seen.to_set().contains(seen[0]));
        r
    }

    /// The number of stored entries.
    pub fn len(&self) -> (r: usize)
        requires
            self.wf(),
        ensures
            r == self@.values.len(),
    {
        proof {
            assert(self@.values.dom() == self.data@.dom());
        }
        self.data.len()
    }
}

/// A finite, non-empty stamp map has a key whose stamp is no larger than any other.
proof fn lemma_min_stamp_exists<K>(stamps: Map<K, nat>)
    requires
        stamps.dom().finite(),
        stamps.len() > 0,
    ensures
        exists|k: K|
            #[trigger] stamps.contains_key(k) && forall|j: K| #[trigger]
                stamps.contains_key(j) ==> stamps[k] <= stamps[j],
    decreases stamps.len(),
{
    let k = stamps.dom().choose();
    assert(stamps.contains_key(k));
    let rest = stamps.remove(k);
    if rest.len() == 0 {
        assert forall|j: K| #[trigger] stamps.contains_key(j) implies stamps[k] <= stamps[j] by {
            if j != k {
                assert(rest.contains_key(j));
            }
        }
    } else {
        lemma_min_stamp_exists(rest);
        let m = choose|m: K|
            #[trigger] rest.contains_key(m) && forall|j: K| #[trigger]
                rest.contains_key(j) ==> rest[m] <= rest[j];
        let w = if stamps[k] <= stamps[m] {
            k
        } else {
            m
        };
        assert forall|j: K| #[trigger] stamps.contains_key(j) implies stamps[w] <= stamps[j] by {
            if j != k {
                assert(rest.contains_key(j));
            }
        }
        assert(stamps.contains_key(w));
    }
}

/// A valid state that holds an entry has a least recently used key, and it is the
/// only key with that property.
pub proof fn lemma_oldest<K, V>(s: CacheState<K, V>)
    requires
        s.valid(),
        s.values.len() > 0,
    ensures
        s.is_oldest(s.oldest()),
        forall|k: K| #[trigger] s.is_oldest(k) ==> k == s.oldest(),
{
    assert(s.stamps.dom().len() == s.values.dom().len());
    lemma_min_stamp_exists(s.stamps);
    let w = choose|k: K|
        #[trigger] s.stamps.contains_key(k) && forall|j: K| #[trigger]
            s.stamps.contains_key(j) ==> s.stamps[k] <= s.stamps[j];
    assert(s.is_oldest(w));
    let o = s.oldest();
    assert forall|k: K| #[trigger] s.is_oldest(k) implies k == o by {
        assert(s.stamps[k] <= s.stamps[o] && s.stamps[o] <= s.stamps[k]);
    }
}

/// Every operation keeps a valid state valid, so over any sequence of operations
/// the number of entries never exceeds the capacity fixed at construction.
pub proof fn lemma_capacity_bound<K, V>(s: CacheState<K, V>, key: K, val: V)
    requires
        s.valid(),
    ensures
        s.after_insert(key, val).valid(),
        s.after_insert(key, val).capacity == s.capacity,
        s.after_insert(key, val).values.len() <= s.capacity,
        s.after_get(key).valid(),
        s.after_get(key).capacity == s.capacity,
        s.after_get(key).values.len() <= s.capacity,
{
    let t = s.after_insert(key, val);
    if s.must_evict(key) {
        lemma_oldest(s);
        let v = s.oldest();
        assert(v != key);
        assert(t.values.dom() =~= s.values.dom().insert(key).remove(v));
        assert(t.stamps.dom() =~= t.values.dom());
        assert(t.values.len() == s.values.len());
    } else {
        assert(t.values.dom() =~= s.values.dom().insert(key));
        assert(t.stamps.dom() =~= t.values.dom());
    }
    if s.values.contains_key(key) {
        assert(s.stamps.dom().insert(key) =~= s.stamps.dom());
    }
}

/// Inserting a new key into a full cache removes exactly the key with the smallest
/// stamp before the insertion, and keeps every other entry as it was.
pub proof fn lemma_eviction<K, V>(s: CacheState<K, V>, key: K, val: V)
    requires
        s.valid(),
        s.must_evict(key),
    ensures
        s.is_oldest(s.oldest()),
        forall|k: K| #[trigger] s.is_oldest(k) ==> k == s.oldest(),
        s.oldest() != key,
        !s.after_insert(key, val).values.contains_key(s.oldest()),
        s.after_insert(key, val).values.contains_key(key),
        s.after_insert(key, val).values[key] == val,
        s.after_insert(key, val).values.len() == s.values.len(),
        forall|j: K|
            #[trigger] s.values.contains_key(j) && j != s.oldest() ==> s.after_insert(
                key,
                val,
            ).values.contains_key(j) && s.after_insert(key, val).values[j] == s.values[j]
                && s.after_insert(key, val).stamps[j] == s.stamps[j],
{
    lemma_oldest(s);
    lemma_capacity_bound(s, key, val);
    let t = s.after_insert(key, val);
    assert(t.values.dom() =~= s.values.dom().insert(key).remove(s.oldest()));
}

/// A lookup that finds its key makes that key the most recently used: its new stamp
/// exceeds that of every other entry, so it is evicted after all of them.
pub proof fn lemma_touch_on_read<K, V>(s: CacheState<K, V>, key: K)
    requires
        s.valid(),
        s.values.contains_key(key),
    ensures
        s.lookup(key) == Some(s.values[key]),
        s.after_get(key).values == s.values,
        forall|j: K|
            #[trigger] s.after_get(key).stamps.contains_key(j) && j != key ==> s.after_get(
                key,
            ).stamps[j] == s.stamps[j] && s.after_get(key).stamps[j] < s.after_get(key).stamps[key],
        s.values.len() > 1 ==> s.after_get(key).oldest() != key,
{
    let t = s.after_get(key);
    lemma_capacity_bound(s, key, s.values[key]);
    if s.values.len() > 1 {
        lemma_oldest(t);
        let o = t.oldest();
        if o == key {
            assert(s.values.dom().contains(key));
            assert(s.values.dom().remove(key).len() > 0);
            let j = s.values.dom().remove(key).choose();
            assert(t.stamps.contains_key(j));
            assert(t.stamps[o] <= t.stamps[j]);
        }
    }
}

/// A lookup of an absent key returns nothing and leaves the state, and so every
/// entry's order, unchanged.
pub proof fn lemma_miss_is_noop<K, V>(s: CacheState<K, V>, key: K)
    requires
        !s.values.contains_key(key),
    ensures
        s.lookup(key) is None,
        s.after_get(key) == s,
{
}

/// Storing an already present key replaces its value and refreshes its stamp,
/// without changing the number of entries or evicting anything.
pub proof fn lemma_update_in_place<K, V>(s: CacheState<K, V>, key: K, val: V)
    requires
        s.valid(),
        s.values.contains_key(key),
    ensures
        s.after_insert(key, val).values == s.values.insert(key, val),
        s.after_insert(key, val).values.dom() == s.values.dom(),
        s.after_insert(key, val).values.len() == s.values.len(),
        s.after_insert(key, val).lookup(key) == Some(val),
        forall|j: K|
            #[trigger] s.after_insert(key, val).stamps.contains_key(j) && j != key
                ==> s.after_insert(key, val).stamps[j] < s.after_insert(key, val).stamps[key],
{
    assert(s.values.insert(key, val).dom() =~= s.values.dom());
}

/// A key that is absent and is never stored stays absent: every lookup of it
/// returns nothing, whatever other keys are looked up or stored in between.
pub proof fn lemma_absent_stays_absent<K, V>(s: CacheState<K, V>, key: K, other: K, val: V)
    requires
        !s.values.contains_key(key),
        other != key,
    ensures
        s.lookup(key) is None,
        s.after_get(key) == s,
        !s.after_get(other).values.contains_key(key),
        !s.after_insert(other, val).values.contains_key(key),
{
}

} // verus!
