//! The container: a buffer of slots indexed by key, and a pool that says
//! which keys are in use.

use crate::growth::{grown_cap, grown_capacity, lemma_grown_cap_bound, lemma_grown_cap_monotone};
use crate::pool::{
    pool_clear, pool_in_use, pool_is_free, pool_keys, pool_new, pool_new_id, pool_request_id,
    pool_return_id, pool_used,
};
use index_pool::IndexPool;
use vstd::prelude::*;

verus! {

/// A map from `usize` keys to values of type `T`.
///
/// Slot `k` of the buffer holds a value exactly when the pool reports `k` in
/// use; the buffer's length is the map's capacity.
pub struct VecMap<T> {
    slots: Vec<Option<T>>,
    indices: IndexPool,
}

/// Appends empty slots to `slots` until it has length `len`.
fn grow_slots<T>(slots: &mut Vec<Option<T>>, len: usize)
    requires
        old(slots)@.len() <= len,
    ensures
        final(slots)@.len() == len,
        forall|i: int| 0 <= i < old(slots)@.len() ==> final(slots)@[i] == old(slots)@[i],
        forall|i: int| old(slots)@.len() <= i < len ==> final(slots)@[i] is None,
{
    let ghost start = slots@;
    while slots.len() < len
        invariant
            start.len() <= slots@.len() <= len,
            forall|i: int| 0 <= i < start.len() ==> slots@[i] == start[i],
            forall|i: int| start.len() <= i < slots@.len() ==> slots@[i] is None,
        decreases len - slots@.len(),
    {
        slots.push(None);
    }
}

/// `ks` lists the keys of `m`, each once, in strictly ascending order.
pub open spec fn lists_keys<T>(ks: Seq<usize>, m: Map<usize, T>) -> bool {
    &&& forall|i: int, j: int| 0 <= i < j < ks.len() ==> ks[i] < ks[j]
    &&& forall|k: usize| m.contains_key(k) <==> ks.contains(k)
}

/// The keys of a sequence of entries.
pub open spec fn entry_keys<V>(es: Seq<(usize, V)>) -> Seq<usize> {
    es.map_values(|e: (usize, V)| e.0)
}

/// The entries of `m` whose keys are less than `at`.
pub open spec fn below<T>(m: Map<usize, T>, at: usize) -> Map<usize, T> {
    m.restrict(Set::new(|k: usize| k < at))
}

/// The entries of `m` whose keys are `at` or more.
pub open spec fn from<T>(m: Map<usize, T>, at: usize) -> Map<usize, T> {
    m.restrict(Set::new(|k: usize| k >= at))
}

/// `m` after inserting each of `es`, first to last.
pub open spec fn with_entries<T>(m: Map<usize, T>, es: Seq<(usize, T)>) -> Map<usize, T>
    decreases es.len(),
{
    if es.len() == 0 {
        m
    } else {
        with_entries(m, es.drop_last()).insert(es.last().0, es.last().1)
    }
}

impl<T> View for VecMap<T> {
    type V = Map<usize, T>;

    closed spec fn view(&self) -> Map<usize, T> {
        Map::new(|k: usize| pool_used(self.indices).contains(k), |k: usize| self.slots@[k as int]->0)
    }
}

impl<T> VecMap<T> {
    /// The map's internal invariant: the pool and the buffer agree on which
    /// slots hold a value, and every key in use has a slot.
    pub closed spec fn wf(&self) -> bool {
        &&& pool_used(self.indices).finite()
        &&& self.slots@.len() < usize::MAX
        &&& forall|k: usize| #[trigger]
            pool_used(self.indices).contains(k) ==> (k as int) < self.slots@.len()
        &&& forall|k: int|
            0 <= k < self.slots@.len() ==> (#[trigger] self.slots@[k] is Some <==> pool_used(
                self.indices,
            ).contains(k as usize))
    }

    /// The number of slots the buffer holds.
    pub closed spec fn cap(&self) -> nat {
        self.slots@.len()
    }

    proof fn lemma_dom(&self)
        requires
            self.wf(),
        ensures
            self@.dom() == pool_used(self.indices),
            self@.dom().finite(),
            forall|k: usize| #[trigger] self@.contains_key(k) ==> (k as nat) < self.cap(),
    {
        assert(self@.dom() =~= pool_used(self.indices));
    }

    /// Makes room for key `idx` by the growth policy.
    fn ensure_growth(&mut self, idx: usize)
        requires
            old(self).wf(),
            grown_cap(old(self).cap(), idx as nat) < usize::MAX,
        ensures
            final(self).wf(),
            final(self)@ == old(self)@,
            final(self).cap() == grown_cap(old(self).cap(), idx as nat),
            final(self).indices == old(self).indices,
    {
        proof {
            lemma_grown_cap_monotone(self.cap(), idx as nat, idx as nat);
        }
        let new_len = grown_capacity(self.slots.len(), idx);
        grow_slots(&mut self.slots, new_len);
        assert(self@ =~= old(self)@);
    }

    /// An empty map with no buffer.
    pub fn new() -> (r: Self)
        ensures
            r.wf(),
            r@ == Map::<usize, T>::empty(),
            r.cap() == 0,
    {
        let r = VecMap { slots: Vec::new(), indices: pool_new() };
        assert(r@ =~= Map::<usize, T>::empty());
        r
    }

    /// An empty map whose buffer has `capacity` slots.
    pub fn with_capacity(capacity: usize) -> (r: Self)
        requires
            capacity < usize::MAX,
        ensures
            r.wf(),
            r@ == Map::<usize, T>::empty(),
            r.cap() == capacity,
    {
        let mut slots = Vec::new();
        grow_slots(&mut slots, capacity);
        let r = VecMap { slots, indices: pool_new() };
        assert(r@ =~= Map::<usize, T>::empty());
        r
    }

    /// The number of slots in the buffer.
    pub fn capacity(&self) -> (r: usize)
        ensures
            r == self.cap(),
    {
        self.slots.len()
    }

    /// The number of entries.
    pub fn len(&self) -> (r: usize)
        requires
            self.wf(),
        ensures
            r == self@.len(),
    {
        proof {
            self.lemma_dom();
        }
        pool_in_use(&self.indices)
    }

    /// Whether the map has no entry.
    pub fn is_empty(&self) -> (r: bool)
        requires
            self.wf(),
        ensures
            r == (self@.len() == 0),
    {
        proof {
            self.lemma_dom();
        }
        pool_in_use(&self.indices) == 0
    }

    /// Whether `key` is in use.
    pub fn contains_key(&self, key: usize) -> (r: bool)
        requires
            self.wf(),
        ensures
            r == self@.contains_key(key),
    {
        !pool_is_free(&self.indices, key)
    }

    /// The value at `key`, if `key` is in use.
    pub fn get(&self, key: usize) -> (r: Option<&T>)
        requires
            self.wf(),
        ensures
            r.is_some() == self@.contains_key(key),
            r.is_some() ==> *r.unwrap() == self@[key],
    {
        if pool_is_free(&self.indices, key) {
            None
        } else {
            self.slots[key].as_ref()
        }
    }

    /// Puts `value` at `key`. A free key is taken into use, growing the
    /// buffer if needed, and `None` is returned; at a key in use the old value
    /// is replaced and returned.
    pub fn insert(&mut self, key: usize, value: T) -> (r: Option<T>)
        requires
            old(self).wf(),
            grown_cap(old(self).cap(), key as nat) < usize::MAX,
        ensures
            final(self).wf(),
            final(self)@ == old(self)@.insert(key, value),
            r == (if old(self)@.contains_key(key) {
                Some(old(self)@[key])
            } else {
                None
            }),
            final(self).cap() == (if old(self)@.contains_key(key) {
                old(self).cap()
            } else {
                grown_cap(old(self).cap(), key as nat)
            }),
    {
        proof {
            self.lemma_dom();
        }
        if pool_is_free(&self.indices, key) {
            self.ensure_growth(key);
            proof {
                lemma_grown_cap_monotone(old(self).cap(), key as nat, key as nat);
            }
            pool_request_id(&mut self.indices, key);
            self.slots.set(key, Some(value));
            assert(self@ =~= old(self)@.insert(key, value));
            None
        } else {
            let mut v = Some(value);
            std::mem::swap(&mut v, &mut self.slots[key]);
            assert(self@ =~= old(self)@.insert(key, value));
            v
        }
    }

    /// Takes the value at `key` out of the map, if `key` is in use.
    pub fn remove(&mut self, key: usize) -> (r: Option<T>)
        requires
            old(self).wf(),
        ensures
            final(self).wf(),
            final(self)@ == old(self)@.remove(key),
            r == (if old(self)@.contains_key(key) {
                Some(old(self)@[key])
            } else {
                None
            }),
            final(self).cap() == old(self).cap(),
    {
        proof {
            self.lemma_dom();
        }
        if pool_is_free(&self.indices, key) {
            assert(self@ =~= old(self)@.remove(key));
            None
        } else {
            pool_return_id(&mut self.indices, key);
            let mut v = None;
            std::mem::swap(&mut v, &mut self.slots[key]);
            assert(self@ =~= old(self)@.remove(key));
            v
        }
    }

    /// Puts `value` at the smallest free key and returns that key, growing
    /// the buffer if needed.
    pub fn add(&mut self, value: T) -> (r: usize)
        requires
            old(self).wf(),
            old(self).cap() < usize::MAX / 2,
        ensures
            final(self).wf(),
            !old(self)@.contains_key(r),
            forall|j: usize| j < r ==> old(self)@.contains_key(j),
            final(self)@ == old(self)@.insert(r, value),
            final(self).cap() == grown_cap(old(self).cap(), r as nat),
    {
        proof {
            self.lemma_dom();
        }
        let key = pool_new_id(&mut self.indices);
        proof {
            if key > self.slots@.len() {
                assert(pool_used(old(self).indices).contains(self.slots@.len() as usize));
            }
            lemma_grown_cap_monotone(old(self).cap(), key as nat, old(self).cap());
        }
        let new_len = grown_capacity(self.slots.len(), key);
        grow_slots(&mut self.slots, new_len);
        self.slots.set(key, Some(value));
        assert(self@ =~= old(self)@.insert(key, value));
        key
    }

    /// A mutable reference to the value at `key`, if `key` is in use.
    pub fn get_mut(&mut self, key: usize) -> (r: Option<&mut T>)
        requires
            old(self).wf(),
        ensures
            r.is_some() == old(self)@.contains_key(key),
            r.is_some() ==> *r.unwrap() == old(self)@[key],
            r.is_some() ==> final(self).wf() && final(self)@ == old(self)@.insert(
                key,
                *final(r.unwrap()),
            ) && final(self).cap() == old(self).cap(),
            r.is_none() ==> *final(self) == *old(self),
    {
        if pool_is_free(&self.indices, key) {
            None
        } else {
            self.slots[key].as_mut()
        }
    }

    /// Removes every entry, in ascending key order, and then frees every key.
    pub fn clear(&mut self)
        requires
            old(self).wf(),
        ensures
            final(self).wf(),
            final(self)@ == Map::<usize, T>::empty(),
            final(self).cap() == old(self).cap(),
    {
        proof {
            self.lemma_dom();
        }
        let keys = pool_keys(&self.indices);
        assert forall|j: int| 0 <= j < keys@.len() implies (keys@[j] as int) < self.slots@.len()
            && self.slots@[keys@[j] as int] is Some by {
            assert(keys@.contains(keys@[j]));
        }
        let mut i: usize = 0;
        while i < keys.len()
            invariant
                0 <= i <= keys@.len(),
                self.indices == old(self).indices,
                self.slots@.len() == old(self).slots@.len(),
                old(self).wf(),
                forall|k: usize| pool_used(self.indices).contains(k) <==> keys@.contains(k),
                forall|k: int|
                    0 <= k < self.slots@.len() ==> (#[trigger] self.slots@[k] is Some ==> pool_used(
                        self.indices,
                    ).contains(k as usize)),
                forall|j: int| 0 <= j < i ==> #[trigger] self.slots@[keys@[j] as int] is None,
                forall|j: int| 0 <= j < keys@.len() ==> (keys@[j] as int) < self.slots@.len(),
            decreases keys@.len() - i,
        {
            let k = keys[i];
            self.slots.set(k, None);
            i = i + 1;
        }
        pool_clear(&mut self.indices);
        assert forall|k: int| 0 <= k < self.slots@.len() implies self.slots@[k] is None by {
            if self.slots@[k] is Some {
                let j = keys@.index_of(k as usize);
                assert(keys@[j] == k as usize);
            }
        }
        assert(self@ =~= Map::<usize, T>::empty());
    }

    /// The keys in use, in ascending order.
    pub fn keys(&self) -> (r: Vec<usize>)
        requires
            self.wf(),
        ensures
            lists_keys(r@, self@),
    {
        pool_keys(&self.indices)
    }

    /// The values, in ascending order of their keys.
    pub fn values(&self) -> (r: Vec<&T>)
        requires
            self.wf(),
        ensures
            exists|ks: Seq<usize>|
                {
                    &&& lists_keys(ks, self@)
                    &&& ks.len() == r@.len()
                    &&& forall|i: int| 0 <= i < ks.len() ==> *r@[i] == self@[#[trigger] ks[i]]
                },
    {
        let keys = pool_keys(&self.indices);
        let mut r: Vec<&T> = Vec::new();
        let mut i: usize = 0;
        while i < keys.len()
            invariant
                self.wf(),
                0 <= i <= keys@.len(),
                r@.len() == i,
                lists_keys(keys@, self@),
                forall|j: int| 0 <= j < i ==> *r@[j] == self@[#[trigger] keys@[j]],
            decreases keys@.len() - i,
        {
            let k = keys[i];
            assert(keys@.contains(k));
            r.push(self.slots[k].as_ref().unwrap());
            i = i + 1;
        }
        r
    }

    /// The entries as pairs of key and value, in ascending key order.
    pub fn iter(&self) -> (r: Vec<(usize, &T)>)
        requires
            self.wf(),
        ensures
            lists_keys(entry_keys(r@), self@),
            forall|i: int| 0 <= i < r@.len() ==> *(#[trigger] r@[i]).1 == self@[r@[i].0],
    {
        let keys = pool_keys(&self.indices);
        let mut r: Vec<(usize, &T)> = Vec::new();
        let mut i: usize = 0;
        while i < keys.len()
            invariant
                self.wf(),
                0 <= i <= keys@.len(),
                r@.len() == i,
                lists_keys(keys@, self@),
                forall|j: int| 0 <= j < i ==> (#[trigger] r@[j]).0 == keys@[j],
                forall|j: int| 0 <= j < i ==> *(#[trigger] r@[j]).1 == self@[r@[j].0],
            decreases keys@.len() - i,
        {
            let k = keys[i];
            assert(keys@.contains(k));
            r.push((k, self.slots[k].as_ref().unwrap()));
            i = i + 1;
        }
        assert(entry_keys(r@) =~= keys@);
        r
    }

    /// Removes every entry and hands them out as pairs of key and value, in
    /// ascending key order.
    pub fn drain(&mut self) -> (r: Vec<(usize, T)>)
        requires
            old(self).wf(),
        ensures
            final(self).wf(),
            final(self)@ == Map::<usize, T>::empty(),
            final(self).cap() == old(self).cap(),
            lists_keys(entry_keys(r@), old(self)@),
            forall|i: int| 0 <= i < r@.len() ==> (#[trigger] r@[i]).1 == old(self)@[r@[i].0],
    {
        proof {
            self.lemma_dom();
        }
        let keys = pool_keys(&self.indices);
        assert forall|j: int| 0 <= j < keys@.len() implies (keys@[j] as int) < self.slots@.len()
            && self.slots@[keys@[j] as int] is Some by {
            assert(keys@.contains(keys@[j]));
        }
        let mut r: Vec<(usize, T)> = Vec::new();
        let mut i: usize = 0;
        while i < keys.len()
            invariant
                0 <= i <= keys@.len(),
                r@.len() == i,
                self.indices == old(self).indices,
                self.slots@.len() == old(self).slots@.len(),
                old(self).wf(),
                lists_keys(keys@, old(self)@),
                forall|k: usize| pool_used(self.indices).contains(k) <==> keys@.contains(k),
                forall|k: int|
                    0 <= k < self.slots@.len() ==> (#[trigger] self.slots@[k] is Some ==> pool_used(
                        self.indices,
                    ).contains(k as usize)),
                forall|k: int|
                    0 <= k < self.slots@.len() && self.slots@[k] is Some ==> #[trigger] self.slots@[k]
                        == old(self).slots@[k],
                forall|j: int| 0 <= j < i ==> #[trigger] self.slots@[keys@[j] as int] is None,
                forall|j: int| i <= j < keys@.len() ==> #[trigger] self.slots@[keys@[j] as int] is Some,
                forall|j: int| 0 <= j < keys@.len() ==> (keys@[j] as int) < self.slots@.len(),
                forall|j: int| 0 <= j < i ==> (#[trigger] r@[j]).0 == keys@[j],
                forall|j: int| 0 <= j < i ==> (#[trigger] r@[j]).1 == old(self)@[r@[j].0],
            decreases keys@.len() - i,
        {
            let k = keys[i];
            let mut v = None;
            std::mem::swap(&mut v, &mut self.slots[k]);
            r.push((k, v.unwrap()));
            i = i + 1;
        }
        pool_clear(&mut self.indices);
        assert forall|k: int| 0 <= k < self.slots@.len() implies self.slots@[k] is None by {
            if self.slots@[k] is Some {
                let j = keys@.index_of(k as usize);
                assert(keys@[j] == k as usize);
            }
        }
        assert(self@ =~= Map::<usize, T>::empty());
        assert(entry_keys(r@) =~= keys@);
        r
    }

    /// Moves every entry of `other` into `self` at its own key, in ascending
    /// key order, replacing what `self` held at that key; `other` ends empty.
    pub fn append(&mut self, other: &mut Self)
        requires
            old(self).wf(),
            old(other).wf(),
            2 * old(other).cap() < usize::MAX,
        ensures
            final(self).wf(),
            final(other).wf(),
            final(self)@ == old(self)@.union_prefer_right(old(other)@),
            final(other)@ == Map::<usize, T>::empty(),
            final(other).cap() == old(other).cap(),
    {
        proof {
            other.lemma_dom();
        }
        let keys = pool_keys(&other.indices);
        assert(lists_keys(keys@, old(other)@));
        let ghost mut done: Set<usize> = Set::empty();
        let mut i: usize = 0;
        while i < keys.len()
            invariant
                self.wf(),
                other.wf(),
                0 <= i <= keys@.len(),
                lists_keys(keys@, old(other)@),
                old(other)@.dom() == pool_used(old(other).indices),
                forall|k: usize| #[trigger] old(other)@.contains_key(k) ==> (k as nat) < old(other).cap(),
                2 * old(other).cap() < usize::MAX,
                self.cap() <= old(self).cap() || self.cap() <= 2 * old(other).cap(),
                other.cap() == old(other).cap(),
                forall|j: int| 0 <= j < i ==> done.contains(#[trigger] keys@[j]),
                forall|j: int| i <= j < keys@.len() ==> !done.contains(#[trigger] keys@[j]),
                other@ == old(other)@.remove_keys(done),
                self@ == old(self)@.union_prefer_right(old(other)@.restrict(done)),
            decreases keys@.len() - i,
        {
            let k = keys[i];
            assert(keys@.contains(k));
            proof {
                lemma_grown_cap_bound(self.cap(), k as nat, old(other).cap());
                lemma_grown_cap_monotone(self.cap(), k as nat, k as nat);
            }
            let v = other.remove(k).unwrap();
            self.insert(k, v);
            proof {
                done = done.insert(k);
            }
            assert(other@ =~= old(other)@.remove_keys(done));
            assert(self@ =~= old(self)@.union_prefer_right(old(other)@.restrict(done)));
            i = i + 1;
        }
        assert forall|k: usize| old(other)@.contains_key(k) implies done.contains(k) by {
            let j = keys@.index_of(k);
            assert(done.contains(keys@[j]));
        }
        assert(other@ =~= Map::<usize, T>::empty());
        assert(old(other)@.restrict(done) =~= old(other)@);
    }

    /// Moves every entry whose key is `at` or more into a new map, at the
    /// same keys; `self` keeps the entries below `at`. Both maps have the
    /// capacity that `self` had.
    pub fn split_off(&mut self, at: usize) -> (r: Self)
        requires
            old(self).wf(),
        ensures
            final(self).wf(),
            r.wf(),
            final(self)@ == below(old(self)@, at),
            r@ == from(old(self)@, at),
            final(self).cap() == old(self).cap(),
            r.cap() == old(self).cap(),
    {
        proof {
            self.lemma_dom();
        }
        let mut other = VecMap::with_capacity(self.slots.len());
        let keys = pool_keys(&self.indices);
        assert(lists_keys(keys@, old(self)@));
        let ghost mut done: Set<usize> = Set::empty();
        let mut i: usize = 0;
        while i < keys.len()
            invariant
                self.wf(),
                other.wf(),
                0 <= i <= keys@.len(),
                lists_keys(keys@, old(self)@),
                forall|k: usize| #[trigger] old(self)@.contains_key(k) ==> (k as nat) < old(self).cap(),
                self.cap() == old(self).cap(),
                other.cap() == old(self).cap(),
                forall|x: usize| #[trigger] done.contains(x) ==> x >= at,
                forall|j: int| 0 <= j < i && keys@[j] >= at ==> done.contains(#[trigger] keys@[j]),
                forall|j: int| i <= j < keys@.len() ==> !done.contains(#[trigger] keys@[j]),
                self@ == old(self)@.remove_keys(done),
                other@ == old(self)@.restrict(done),
            decreases keys@.len() - i,
        {
            let k = keys[i];
            assert(keys@.contains(k));
            if k >= at {
                let v = self.remove(k).unwrap();
                other.insert(k, v);
                proof {
                    done = done.insert(k);
                }
                assert(self@ =~= old(self)@.remove_keys(done));
                assert(other@ =~= old(self)@.restrict(done));
            }
            i = i + 1;
        }
        assert forall|k: usize| old(self)@.contains_key(k) && k >= at implies done.contains(k) by {
            let j = keys@.index_of(k);
            assert(done.contains(keys@[j]));
        }
        assert(self@ =~= below(old(self)@, at));
        assert(other@ =~= from(old(self)@, at));
        other
    }

    /// Grows the buffer to hold `len` slots if it holds fewer, to at least
    /// twice its old size.
    pub fn reserve_len(&mut self, len: usize)
        requires
            old(self).wf(),
            len < usize::MAX,
            len > old(self).cap() ==> 2 * old(self).cap() < usize::MAX,
        ensures
            final(self).wf(),
            final(self)@ == old(self)@,
            final(self).cap() == (if len <= old(self).cap() {
                old(self).cap()
            } else if len <= 2 * old(self).cap() {
                2 * old(self).cap()
            } else {
                len as nat
            }),
    {
        let cap = self.slots.len();
        if len <= cap {
            return;
        }
        let target = if len <= 2 * cap {
            2 * cap
        } else {
            len
        };
        grow_slots(&mut self.slots, target);
        assert(self@ =~= old(self)@);
    }

    /// Grows the buffer to exactly `len` slots if it holds fewer.
    pub fn reserve_len_exact(&mut self, len: usize)
        requires
            old(self).wf(),
            len < usize::MAX,
        ensures
            final(self).wf(),
            final(self)@ == old(self)@,
            final(self).cap() == (if len <= old(self).cap() {
                old(self).cap()
            } else {
                len as nat
            }),
    {
        if len <= self.slots.len() {
            return;
        }
        grow_slots(&mut self.slots, len);
        assert(self@ =~= old(self)@);
    }

    /// Replaces each value `v` at key `k` by `f(k, v)`, in ascending key
    /// order.
    pub fn iter_mut<F: Fn(usize, T) -> T>(&mut self, f: F)
        requires
            old(self).wf(),
            forall|k: usize, v: T| f.requires((k, v)),
        ensures
            final(self).wf(),
            final(self).cap() == old(self).cap(),
            final(self)@.dom() == old(self)@.dom(),
            forall|k: usize| #[trigger]
                old(self)@.contains_key(k) ==> f.ensures((k, old(self)@[k]), final(self)@[k]),
    {
        proof {
            self.lemma_dom();
        }
        let keys = pool_keys(&self.indices);
        assert forall|j: int| 0 <= j < keys@.len() implies (keys@[j] as int) < self.slots@.len()
            && self.slots@[keys@[j] as int] is Some by {
            assert(keys@.contains(keys@[j]));
        }
        let mut i: usize = 0;
        while i < keys.len()
            invariant
                0 <= i <= keys@.len(),
                old(self).wf(),
                forall|k: usize, v: T| f.requires((k, v)),
                self.indices == old(self).indices,
                self.slots@.len() == old(self).slots@.len(),
                lists_keys(keys@, old(self)@),
                forall|k: int|
                    0 <= k < self.slots@.len() ==> (#[trigger] self.slots@[k] is Some
                        <==> old(self).slots@[k] is Some),
                forall|j: int| 0 <= j < keys@.len() ==> (keys@[j] as int) < self.slots@.len(),
                forall|j: int|
                    0 <= j < keys@.len() ==> #[trigger] old(self).slots@[keys@[j] as int] is Some,
                forall|j: int|
                    0 <= j < i ==> f.ensures(
                        (keys@[j], old(self).slots@[keys@[j] as int]->0),
                        #[trigger] self.slots@[keys@[j] as int]->0,
                    ),
                forall|j: int| i <= j < keys@.len() ==> #[trigger] self.slots@[keys@[j] as int]
                    == old(self).slots@[keys@[j] as int],
                forall|j1: int, j2: int|
                    0 <= j1 < j2 < keys@.len() ==> keys@[j1] < keys@[j2],
            decreases keys@.len() - i,
        {
            let k = keys[i];
            let mut v = None;
            std::mem::swap(&mut v, &mut self.slots[k]);
            let w = f(k, v.unwrap());
            self.slots.set(k, Some(w));
            i = i + 1;
        }
        proof {
            assert(self@.dom() =~= old(self)@.dom());
            assert forall|k: usize| #[trigger] old(self)@.contains_key(k) implies f.ensures(
                (k, old(self)@[k]),
                self@[k],
            ) by {
                let j = keys@.index_of(k);
                assert(keys@[j] == k);
            }
        }
    }

    /// Replaces each value `v` by `f(v)`, in ascending key order.
    pub fn values_mut<F: Fn(T) -> T>(&mut self, f: F)
        requires
            old(self).wf(),
            forall|v: T| f.requires((v,)),
        ensures
            final(self).wf(),
            final(self).cap() == old(self).cap(),
            final(self)@.dom() == old(self)@.dom(),
            forall|k: usize| #[trigger]
                old(self)@.contains_key(k) ==> f.ensures((old(self)@[k],), final(self)@[k]),
    {
        let fr = &f;
        let g = |k: usize, v: T| -> (w: T)
            requires
                fr.requires((v,)),
            ensures
                fr.ensures((v,), w),
            { fr(v) };
        self.iter_mut(g);
    }

    /// Inserts each pair of `entries` at its key, first to last, so that a
    /// later pair replaces an earlier one at the same key.
    pub fn extend(&mut self, entries: Vec<(usize, T)>)
        requires
            old(self).wf(),
            forall|i: int| 0 <= i < entries@.len() ==> entries@[i].0 < usize::MAX / 2,
        ensures
            final(self).wf(),
            final(self)@ == with_entries(old(self)@, entries@),
    {
        let ghost orig = entries@;
        let n = entries.len();
        let mut entries = entries;
        let mut rev: Vec<(usize, T)> = Vec::new();
        while entries.len() > 0
            invariant
                entries@ == orig.subrange(0, entries@.len() as int),
                rev@.len() == n - entries@.len(),
                n == orig.len(),
                forall|j: int| 0 <= j < rev@.len() ==> rev@[j] == orig[n - 1 - j],
            decreases entries@.len(),
        {
            let e = entries.pop().unwrap();
            rev.push(e);
        }
        let mut i: usize = 0;
        while rev.len() > 0
            invariant
                self.wf(),
                i + rev@.len() == n,
                n == orig.len(),
                forall|j: int| 0 <= j < rev@.len() ==> rev@[j] == orig[n - 1 - j],
                forall|j: int| 0 <= j < orig.len() ==> orig[j].0 < usize::MAX / 2,
                self.cap() <= old(self).cap() || self.cap() <= 2 * (usize::MAX / 2),
                self@ == with_entries(old(self)@, orig.subrange(0, i as int)),
            decreases rev@.len(),
        {
            let e = rev.pop().unwrap();
            let (k, v) = e;
            assert(e == orig[i as int]);
            proof {
                lemma_grown_cap_bound(self.cap(), k as nat, (usize::MAX / 2) as nat);
                lemma_grown_cap_monotone(self.cap(), k as nat, k as nat);
            }
            self.insert(k, v);
            assert(orig.subrange(0, i + 1).drop_last() =~= orig.subrange(0, i as int));
            i = i + 1;
        }
        assert(orig.subrange(0, n as int) =~= orig);
    }

    /// A map holding `entries` inserted first to last.
    pub fn from_entries(entries: Vec<(usize, T)>) -> (r: Self)
        requires
            entries@.len() < usize::MAX,
            forall|i: int| 0 <= i < entries@.len() ==> entries@[i].0 < usize::MAX / 2,
        ensures
            r.wf(),
            r@ == with_entries(Map::<usize, T>::empty(), entries@),
    {
        let mut r = VecMap::with_capacity(entries.len());
        r.extend(entries);
        r
    }
}

impl<T> Default for VecMap<T> {
    fn default() -> (r: Self)
        ensures
            r.wf(),
            r@ == Map::<usize, T>::empty(),
            r.cap() == 0,
    {
        VecMap::new()
    }
}

} // verus!
