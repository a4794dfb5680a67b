use std::collections::HashMap;
use std::hash::Hash;
use std::marker::PhantomData;
use vstd::prelude::*;
use vstd::std_specs::hash::obeys_key_model;

verus! {

/// A key that is a thin wrapper around an index.
pub trait Key: Copy + Sized {
    /// The index that the key stands for.
    spec fn key_index(&self) -> usize;

    /// The index that the key stands for.
    fn index(&self) -> (r: usize)
        ensures
            r == self.key_index(),
    ;

    /// The key that stands for a given index.
    spec fn key_of(i: usize) -> Self;

    /// The key of a given index.
    fn from_index(i: usize) -> (k: Self)
        ensures
            k == Self::key_of(i),
            k.key_index() == i,
    ;

    /// A key and its index stand for each other.
    proof fn lemma_key_index(k: Self, i: usize)
        ensures
            Self::key_of(i).key_index() == i,
            Self::key_of(k.key_index()) == k,
    ;

    /// Keys hash and compare as their values: hash maps and sets keyed by them behave as maps
    /// and sets.
    proof fn lemma_key_model()
        ensures
            obeys_key_model::<Self>(),
    ;
}

/// The indices of a sequence of keys.
pub open spec fn indices_of<K: Key>(keys: Seq<K>) -> Seq<usize> {
    keys.map_values(|k: K| k.key_index())
}

/// The pairs of indices of a sequence of pairs of keys.
pub open spec fn pair_indices_of<T: Key, U: Key>(pairs: Seq<(T, U)>) -> Seq<(usize, usize)> {
    pairs.map_values(|p: (T, U)| (p.0.key_index(), p.1.key_index()))
}

impl Key for usize {
    open spec fn key_index(&self) -> usize {
        *self
    }

    fn index(&self) -> (r: usize) {
        *self
    }

    open spec fn key_of(i: usize) -> usize {
        i
    }

    fn from_index(i: usize) -> (k: Self) {
        i
    }

    proof fn lemma_key_index(k: Self, i: usize) {
    }

    proof fn lemma_key_model() {
        broadcast use vstd::std_specs::hash::group_hash_axioms;
    }
}

/// A list of values, each found again by the key of its position.
pub struct Arena<K, V> {
    items: Vec<V>,
    _phantom_data: PhantomData<K>,
}

impl<K, V> View for Arena<K, V> {
    type V = Seq<V>;

    /// The values, by the index of their keys.
    closed spec fn view(&self) -> Seq<V> {
        self.items@
    }
}

impl<K, V> Default for Arena<K, V> {
    fn default() -> (r: Self)
        ensures
            r@ == Seq::<V>::empty(),
    {
        Arena { items: Vec::new(), _phantom_data: PhantomData }
    }
}

impl<K, V> Arena<K, V> {
    pub fn new() -> (r: Self)
        ensures
            r@ == Seq::<V>::empty(),
    {
        Self::default()
    }
}

impl<K: Key, V> Arena<K, V> {
    /// The value of a key.
    pub fn get(&self, key: K) -> (r: &V)
        requires
            key.key_index() < self@.len(),
        ensures
            *r == self@[key.key_index() as int],
    {
        &self.items[key.index()]
    }

    /// The value of a key, to change in place.
    pub fn get_mut(&mut self, key: K) -> (r: &mut V)
        requires
            key.key_index() < old(self)@.len(),
        ensures
            *r == old(self)@[key.key_index() as int],
            final(self)@ == old(self)@.update(key.key_index() as int, *final(r)),
    {
        &mut self.items[key.index()]
    }

    /// Add a value, returning its key: the next index.
    pub fn insert(&mut self, value: V) -> (r: K)
        requires
            old(self)@.len() < usize::MAX,
        ensures
            final(self)@ == old(self)@.push(value),
            r.key_index() == old(self)@.len(),
    {
        self.items.push(value);
        K::from_index(self.items.len() - 1)
    }

    /// Every key with its value, in the order of the keys.
    pub fn iter(&self) -> (r: Vec<(K, &V)>)
        ensures
            r@.len() == self@.len(),
            forall|i: int| 0 <= i < r@.len() ==> (#[trigger] r@[i]).0.key_index() == i && *r@[i].1 == self@[i],
    {
        let mut r: Vec<(K, &V)> = Vec::new();
        let mut j: usize = 0;
        while j < self.items.len()
            invariant
                0 <= j <= self@.len(),
                r@.len() == j,
                forall|i: int| 0 <= i < j ==> (#[trigger] r@[i]).0.key_index() == i && *r@[i].1 == self@[i],
            decreases self@.len() - j,
        {
            r.push((K::from_index(j), &self.items[j]));
            j = j + 1;
        }
        r
    }

    /// Every key, in order.
    pub fn keys(&self) -> (r: Vec<K>)
        ensures
            r@.len() == self@.len(),
            forall|i: int| 0 <= i < r@.len() ==> (#[trigger] r@[i]).key_index() == i,
    {
        let mut r: Vec<K> = Vec::new();
        let mut j: usize = 0;
        while j < self.items.len()
            invariant
                0 <= j <= self@.len(),
                r@.len() == j,
                forall|i: int| 0 <= i < j ==> (#[trigger] r@[i]).key_index() == i,
            decreases self@.len() - j,
        {
            r.push(K::from_index(j));
            j = j + 1;
        }
        r
    }

    pub fn len(&self) -> (r: usize)
        ensures
            r == self@.len(),
    {
        self.items.len()
    }

    pub fn is_empty(&self) -> (r: bool)
        ensures
            r == (self@.len() == 0),
    {
        self.items.len() == 0
    }
}

/// Values at some of the keys, found by their indices.
pub struct SecondaryArena<K, V> {
    values: Vec<Option<V>>,
    _phantom_data: PhantomData<K>,
}

impl<K, V> View for SecondaryArena<K, V> {
    type V = Map<usize, V>;

    /// The value at each index that has one.
    closed spec fn view(&self) -> Map<usize, V> {
        slots_view(self.values@)
    }
}

/// The value at each index of `values` that has one.
pub open spec fn slots_view<V>(values: Seq<Option<V>>) -> Map<usize, V> {
    Map::new(|i: usize| i < values.len() && values[i as int] is Some, |i: usize| values[i as int].unwrap())
}

/// Filling a slot puts its value at its index.
proof fn lemma_fill_slot<V>(values: Seq<Option<V>>, i: usize, x: V)
    requires
        i < values.len(),
    ensures
        slots_view(values.update(i as int, Some(x))) == slots_view(values).insert(i, x),
{
    assert(slots_view(values.update(i as int, Some(x))) =~= slots_view(values).insert(i, x));
}

impl<K, V> Default for SecondaryArena<K, V> {
    fn default() -> (r: Self)
        ensures
            r@ == Map::<usize, V>::empty(),
    {
        let r = SecondaryArena { values: Vec::new(), _phantom_data: PhantomData };
        proof {
            assert(r@ =~= Map::<usize, V>::empty());
        }
        r
    }
}

impl<K, V> SecondaryArena<K, V> {
    pub fn new() -> (r: Self)
        ensures
            r@ == Map::<usize, V>::empty(),
    {
        Self::default()
    }
}

impl<K: Key, V> SecondaryArena<K, V> {
    /// Put a value at a key, returning the value that was there, if any.
    pub fn insert(&mut self, key: K, value: V) -> (r: Option<V>)
        requires
            key.key_index() < usize::MAX,
        ensures
            final(self)@ == old(self)@.insert(key.key_index(), value),
            r == if old(self)@.contains_key(key.key_index()) {
                Some(old(self)@[key.key_index()])
            } else {
                None
            },
    {
        let idx = key.index();
        let ghost start = self.values@;
        while self.values.len() <= idx
            invariant
                idx < usize::MAX,
                start.len() <= self.values@.len(),
                self.values@.len() > start.len() ==> self.values@.len() <= idx + 1,
                forall|i: int| 0 <= i < start.len() ==> #[trigger] self.values@[i] == start[i],
                forall|i: int| start.len() <= i < self.values@.len() ==> (#[trigger] self.values@[i]) is None,
            decreases idx + 1 - self.values@.len(),
        {
            self.values.push(None);
        }
        let ghost grown = self.values@;
        let mut slot = Some(value);
        std::mem::swap(&mut self.values[idx], &mut slot);
        proof {
            assert(self@ =~= old(self)@.insert(key.key_index(), value)) by {
                assert forall|i: usize| #[trigger] self@.contains_key(i) == old(self)@.insert(key.key_index(), value).contains_key(i) by {
                    if i != idx && i < grown.len() && i >= start.len() {
                        assert(grown[i as int] is None);
                    }
                }
            }
            if idx >= start.len() {
                assert(grown[idx as int] is None);
            }
        }
        slot
    }

    /// The value at a key, if any.
    pub fn get(&self, key: K) -> (r: Option<&V>)
        ensures
            r == if self@.contains_key(key.key_index()) {
                Some(&self@[key.key_index()])
            } else {
                None
            },
    {
        let idx = key.index();
        if idx < self.values.len() {
            match &self.values[idx] {
                Some(v) => Some(v),
                None => None,
            }
        } else {
            None
        }
    }

    /// Whether a key has a value.
    pub fn contains_key(&self, key: K) -> (r: bool)
        ensures
            r == self@.contains_key(key.key_index()),
    {
        let idx = key.index();
        idx < self.values.len() && self.values[idx].is_some()
    }

    /// Take the value at a key out, if any.
    pub fn take(&mut self, key: K) -> (r: Option<V>)
        ensures
            final(self)@ == old(self)@.remove(key.key_index()),
            r == if old(self)@.contains_key(key.key_index()) {
                Some(old(self)@[key.key_index()])
            } else {
                None
            },
    {
        let idx = key.index();
        if idx < self.values.len() {
            let mut slot: Option<V> = None;
            std::mem::swap(&mut self.values[idx], &mut slot);
            proof {
                assert(self@ =~= old(self)@.remove(key.key_index()));
            }
            slot
        } else {
            proof {
                assert(self@ =~= old(self)@.remove(key.key_index()));
            }
            None
        }
    }

    /// Put at a key what `f` makes of the value there, if any.
    pub fn replace_with<F: FnOnce(Option<V>) -> V>(&mut self, key: K, f: F)
        requires
            key.key_index() < usize::MAX,
            call_requires(
                f,
                (if old(self)@.contains_key(key.key_index()) {
                    Some(old(self)@[key.key_index()])
                } else {
                    None
                },),
            ),
        ensures
            exists|v: V|
                call_ensures(
                    f,
                    (if old(self)@.contains_key(key.key_index()) {
                        Some(old(self)@[key.key_index()])
                    } else {
                        None
                    },),
                    v,
                ) && final(self)@ == #[trigger] old(self)@.insert(key.key_index(), v),
    {
        let prev = self.take(key);
        let v = f(prev);
        self.insert(key, v);
        proof {
            assert(old(self)@.remove(key.key_index()).insert(key.key_index(), v) =~= old(self)@.insert(key.key_index(), v));
        }
    }

    /// Every key that has a value, with its value, in the order of the indices.
    pub fn iter(&self) -> (r: Vec<(K, &V)>)
        ensures
            forall|i: int| 0 <= i < r@.len() ==> self@.contains_key((#[trigger] r@[i]).0.key_index()) && *r@[i].1 == self@[r@[i].0.key_index()],
            forall|i: int, j: int| 0 <= i < j < r@.len() ==> (#[trigger] r@[i]).0.key_index() < (#[trigger] r@[j]).0.key_index(),
            forall|k: usize| #[trigger] self@.contains_key(k) ==> exists|i: int| 0 <= i < r@.len() && (#[trigger] r@[i]).0.key_index() == k,
    {
        let mut r: Vec<(K, &V)> = Vec::new();
        let mut j: usize = 0;
        while j < self.values.len()
            invariant
                0 <= j <= self.values@.len(),
                forall|i: int| 0 <= i < r@.len() ==> self@.contains_key((#[trigger] r@[i]).0.key_index()) && *r@[i].1 == self@[r@[i].0.key_index()]
                    && r@[i].0.key_index() < j,
                forall|i: int, m: int| 0 <= i < m < r@.len() ==> (#[trigger] r@[i]).0.key_index() < (#[trigger] r@[m]).0.key_index(),
                forall|k: usize| #[trigger] self@.contains_key(k) && k < j ==> exists|i: int| 0 <= i < r@.len() && (#[trigger] r@[i]).0.key_index() == k,
            decreases self.values@.len() - j,
        {
            match &self.values[j] {
                Some(v) => {
                    let ghost before = r@;
                    r.push((K::from_index(j), v));
                    proof {
                        assert(self@.contains_key(j));
                        assert forall|k: usize| #[trigger] self@.contains_key(k) && k < j + 1 implies exists|i: int|
                            0 <= i < r@.len() && (#[trigger] r@[i]).0.key_index() == k by {
                            if k == j {
                                assert(r@[r@.len() - 1].0.key_index() == k);
                            } else {
                                let i = choose|i: int| 0 <= i < before.len() && (#[trigger] before[i]).0.key_index() == k;
                                assert(r@[i] == before[i]);
                            }
                        }
                    }
                },
                None => {
                    proof {
                        assert(!self@.contains_key(j));
                    }
                },
            }
            j = j + 1;
        }
        r
    }

    /// Every key that has a value, in the order of the indices.
    pub fn keys(&self) -> (r: Vec<K>)
        ensures
            forall|i: int| 0 <= i < r@.len() ==> self@.contains_key((#[trigger] r@[i]).key_index()),
            forall|i: int, j: int| 0 <= i < j < r@.len() ==> (#[trigger] r@[i]).key_index() < (#[trigger] r@[j]).key_index(),
            forall|k: usize| #[trigger] self@.contains_key(k) ==> exists|i: int| 0 <= i < r@.len() && (#[trigger] r@[i]).key_index() == k,
    {
        let entries = self.iter();
        let mut r: Vec<K> = Vec::new();
        let mut j: usize = 0;
        while j < entries.len()
            invariant
                0 <= j <= entries@.len(),
                r@.len() == j,
                forall|i: int| 0 <= i < j ==> (#[trigger] r@[i]) == entries@[i].0,
            decreases entries@.len() - j,
        {
            r.push(entries[j].0);
            j = j + 1;
        }
        proof {
            assert forall|i: int, m: int| 0 <= i < m < r@.len() implies (#[trigger] r@[i]).key_index() < (#[trigger] r@[m]).key_index() by {
                assert(entries@[i].0.key_index() < entries@[m].0.key_index());
            }
            assert forall|k: usize| #[trigger] self@.contains_key(k) implies exists|i: int| 0 <= i < r@.len() && (#[trigger] r@[i]).key_index() == k by {
                let i = choose|i: int| 0 <= i < entries@.len() && (#[trigger] entries@[i]).0.key_index() == k;
                assert(r@[i] == entries@[i].0);
            }
        }
        r
    }

    /// The value at an index that has one, to change in place.
    fn slot_mut(&mut self, idx: usize) -> (r: &mut V)
        requires
            idx < old(self).values@.len(),
            old(self).values@[idx as int] is Some,
        ensures
            *r == old(self).values@[idx as int].unwrap(),
            final(self).values@ == old(self).values@.update(idx as int, Some(*final(r))),
    {
        let slot = &mut self.values[idx];
        let r = slot.as_mut().unwrap();
        r
    }

    /// The value at a key, to change in place; `default` makes it where there is none.
    pub fn get_or_insert_with<F: FnOnce() -> V>(&mut self, key: K, default: F) -> (r: &mut V)
        requires
            key.key_index() < usize::MAX,
            !old(self)@.contains_key(key.key_index()) ==> call_requires(default, ()),
        ensures
            old(self)@.contains_key(key.key_index()) ==> *r == old(self)@[key.key_index()],
            !old(self)@.contains_key(key.key_index()) ==> call_ensures(default, (), *r),
            final(self)@ == old(self)@.insert(key.key_index(), *final(r)),
    {
        let idx = key.index();
        if !self.contains_key(key) {
            let v = default();
            self.insert(key, v);
            proof {
                assert(call_ensures(default, (), self@[idx]));
            }
        }
        proof {
            assert(!old(self)@.contains_key(idx) ==> call_ensures(default, (), self@[idx]));
            assert(old(self)@.contains_key(idx) ==> self@ == old(self)@);
            assert(self@.contains_key(idx));
            assert(self@.dom().contains(idx));
            assert(self.values@[idx as int].unwrap() == self@[idx]);
            assert forall|x: V| #[trigger] slots_view(self.values@.update(idx as int, Some(x))) == self@.insert(idx, x) by {
                lemma_fill_slot(self.values@, idx, x);
            }
        }
        self.slot_mut(idx)
    }
}

/// An arena whose values are found again by value as well: each value once, at one key.
pub struct BiArena<K, V> {
    vals: Arena<K, V>,
    keys: HashMap<V, K>,
}

impl<K, V> BiArena<K, V> {
    /// The values, by the index of their keys.
    pub closed spec fn values(self) -> Seq<V> {
        self.vals@
    }

    /// The key of each value.
    pub closed spec fn key_map(self) -> Map<V, K> {
        self.keys@
    }
}

impl<K, V> Default for BiArena<K, V> {
    fn default() -> (r: Self)
        ensures
            r.values() == Seq::<V>::empty(),
            r.key_map() == Map::<V, K>::empty(),
    {
        BiArena { vals: Arena::new(), keys: HashMap::new() }
    }
}

impl<K: Key, V> BiArena<K, V> {
    pub fn new() -> (r: Self)
        ensures
            r.values() == Seq::<V>::empty(),
            r.key_map() == Map::<V, K>::empty(),
    {
        Self::default()
    }

    /// The value of a key.
    pub fn get_value(&self, key: K) -> (r: &V)
        requires
            key.key_index() < self.values().len(),
        ensures
            *r == self.values()[key.key_index() as int],
    {
        self.vals.get(key)
    }

    pub fn len(&self) -> (r: usize)
        ensures
            r == self.values().len(),
    {
        self.vals.len()
    }

    pub fn is_empty(&self) -> (r: bool)
        ensures
            r == (self.values().len() == 0),
    {
        self.vals.is_empty()
    }

    /// Every key with its value, in the order of the keys.
    pub fn iter(&self) -> (r: Vec<(K, &V)>)
        ensures
            r@.len() == self.values().len(),
            forall|i: int| 0 <= i < r@.len() ==> (#[trigger] r@[i]).0.key_index() == i && *r@[i].1 == self.values()[i],
    {
        self.vals.iter()
    }

    /// Every key, in order.
    pub fn keys(&self) -> (r: Vec<K>)
        ensures
            r@.len() == self.values().len(),
            forall|i: int| 0 <= i < r@.len() ==> (#[trigger] r@[i]).key_index() == i,
    {
        self.vals.keys()
    }
}

/// What `get_or_insert_key` does: the key is below the length, values are only added at the end,
/// at most one; where the model of hashing holds, a value that has a key keeps it and changes
/// nothing, and a value without one gets the next key, a copy of it stored there.
pub open spec fn got_or_inserted<K: Key, V: Clone>(before: BiArena<K, V>, val: V, after: BiArena<K, V>, r: K) -> bool {
    &&& r.key_index() < after.values().len()
    &&& before.values().len() <= after.values().len()
    &&& after.values().len() <= before.values().len() + 1
    &&& after.values().take(before.values().len() as int) == before.values()
    &&& obeys_key_model::<V>() && before.key_map().contains_key(val) && before.key_map()[val].key_index()
        < before.values().len() ==> r == before.key_map()[val] && after.values() == before.values()
        && after.key_map() == before.key_map()
    &&& obeys_key_model::<V>() && !before.key_map().contains_key(val) ==> {
        &&& r.key_index() == before.values().len()
        &&& after.values().len() == before.values().len() + 1
        &&& cloned(val, after.values()[before.values().len() as int])
        &&& after.key_map() == before.key_map().insert(val, r)
    }
}

/// Asking twice for the key of one value gives the same key, and the second ask changes nothing:
/// the value is added at most once. (The keys the arena holds are below its length.)
pub proof fn lemma_get_or_insert_key_twice<K: Key, V: Clone>(
    first: BiArena<K, V>,
    val: V,
    second: BiArena<K, V>,
    k1: K,
    third: BiArena<K, V>,
    k2: K,
)
    requires
        obeys_key_model::<V>(),
        first.key_map().contains_key(val) ==> first.key_map()[val].key_index() < first.values().len(),
        got_or_inserted(first, val, second, k1),
        got_or_inserted(second, val, third, k2),
    ensures
        k1 == k2,
        third.values() == second.values(),
        third.key_map() == second.key_map(),
{
}

impl<K: Key, V: Hash + Eq + Clone> BiArena<K, V> {
    /// The key of a value, adding a copy of the value at the next key where it has none.
    pub fn get_or_insert_key(&mut self, val: V) -> (r: K)
        requires
            old(self).values().len() < usize::MAX,
        ensures
            got_or_inserted(*old(self), val, *final(self), r),
    {
        proof {
            broadcast use vstd::std_specs::hash::group_hash_axioms;
        }
        let found = match self.keys.get(&val) {
            Some(key) => Some(*key),
            None => None,
        };
        match found {
            Some(key) if key.index() < self.vals.len() => {
                proof {
                    assert(self.vals@.take(old(self).values().len() as int) =~= old(self).values());
                }
                key
            },
            _ => {
                let copy = val.clone();
                let key = self.vals.insert(copy);
                self.keys.insert(val, key);
                proof {
                    assert(self.vals@.take(old(self).values().len() as int) =~= old(self).values());
                }
                key
            },
        }
    }

    /// Whether a value has a key.
    pub fn contains_value(&self, val: &V) -> (r: bool)
        ensures
            obeys_key_model::<V>() ==> r == self.key_map().contains_key(*val),
    {
        proof {
            broadcast use vstd::std_specs::hash::group_hash_axioms;
        }
        self.keys.contains_key(val)
    }
}

} // verus!
