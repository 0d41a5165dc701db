//! A map from integer keys to values that keeps its entries in the order in
//! which their keys first came.

use std::collections::HashMap;
use vstd::prelude::*;

verus! {

broadcast use vstd::std_specs::hash::group_hash_axioms;

/// The index of the entry with the key `key`, if there is one.
pub open spec fn slot_of<V>(entries: Seq<(u64, V)>, key: u64) -> Option<int>
    decreases entries.len(),
{
    if entries.len() == 0 {
        None
    } else {
        match slot_of(entries.drop_last(), key) {
            Some(i) => Some(i),
            None => if entries.last().0 == key {
                Some(entries.len() - 1)
            } else {
                None
            },
        }
    }
}

/// What `slot_of` finds is an entry with the key, and the first such.
pub proof fn lemma_slot_of<V>(entries: Seq<(u64, V)>, key: u64)
    ensures
        match slot_of(entries, key) {
            Some(i) => 0 <= i < entries.len() && entries[i].0 == key && forall|j: int|
                0 <= j < i ==> (#[trigger] entries[j]).0 != key,
            None => forall|j: int| 0 <= j < entries.len() ==> (#[trigger] entries[j]).0 != key,
        },
    decreases entries.len(),
{
    if entries.len() > 0 {
        lemma_slot_of(entries.drop_last(), key);
        assert forall|j: int| 0 <= j < entries.len() - 1 implies #[trigger] entries[j]
            == entries.drop_last()[j] by {}
    }
}

/// The map that a list of entries stands for.
pub open spec fn slots_map<V>(entries: Seq<(u64, V)>) -> Map<u64, V> {
    Map::new(|k: u64| slot_of(entries, k) is Some, |k: u64| entries[slot_of(entries, k)->0].1)
}

/// No two entries have the same key.
pub open spec fn slots_distinct<V>(entries: Seq<(u64, V)>) -> bool {
    forall|i: int, j: int|
        0 <= i < j < entries.len() ==> (#[trigger] entries[i]).0 != (#[trigger] entries[j]).0
}

/// Where keys are distinct, each entry is the one that its key leads to.
pub proof fn lemma_slot_of_own<V>(entries: Seq<(u64, V)>, i: int)
    requires
        slots_distinct(entries),
        0 <= i < entries.len(),
    ensures
        slot_of(entries, entries[i].0) == Some(i),
{
    lemma_slot_of(entries, entries[i].0);
}

/// Replacing the value of an entry gives its key that value in the map.
pub proof fn lemma_slots_map_update<V>(entries: Seq<(u64, V)>, i: int, value: V)
    requires
        0 <= i < entries.len(),
        slot_of(entries, entries[i].0) == Some(i),
    ensures
        slots_map(entries.update(i, (entries[i].0, value))) == slots_map(entries).insert(
            entries[i].0,
            value,
        ),
        forall|key: u64|
            slot_of(entries.update(i, (entries[i].0, value)), key) == #[trigger] slot_of(
                entries,
                key,
            ),
{
    let k = entries[i].0;
    let after = entries.update(i, (k, value));
    assert forall|key: u64| slot_of(after, key) == #[trigger] slot_of(entries, key) by {
        lemma_slot_of(after, key);
        lemma_slot_of(entries, key);
        match slot_of(entries, key) {
            Some(p) => {
                assert(after[p].0 == key);
                match slot_of(after, key) {
                    Some(q) => {
                        assert(entries[q].0 == key);
                    },
                    None => {},
                }
            },
            None => {
                match slot_of(after, key) {
                    Some(q) => {
                        assert(entries[q].0 == key);
                    },
                    None => {},
                }
            },
        }
    }
    let goal = slots_map(entries).insert(k, value);
    assert forall|key: u64| #[trigger]
        slots_map(after).dom().contains(key) == goal.dom().contains(key) by {
        assert(slot_of(after, key) == slot_of(entries, key));
    }
    assert forall|key: u64| #[trigger] slots_map(after).dom().contains(key) implies slots_map(
        after,
    )[key] == goal[key] by {
        assert(slot_of(after, key) == slot_of(entries, key));
        lemma_slot_of(entries, key);
        let p = slot_of(entries, key)->0;
        if key == k {
            assert(p == i);
        } else {
            assert(entries[p].0 == key);
            assert(p != i);
            assert(after[p] == entries[p]);
        }
    }
    assert(slots_map(after) =~= goal);
}

/// Appending an entry with a new key gives the key that value in the map.
pub proof fn lemma_slots_map_push<V>(entries: Seq<(u64, V)>, k: u64, value: V)
    requires
        slot_of(entries, k) is None,
    ensures
        slots_map(entries.push((k, value))) == slots_map(entries).insert(k, value),
        forall|key: u64|
            #[trigger] slot_of(entries.push((k, value)), key) == (if key == k {
                Some(entries.len() as int)
            } else {
                slot_of(entries, key)
            }),
{
    let after = entries.push((k, value));
    assert(after.drop_last() =~= entries);
    assert forall|key: u64|
        #[trigger] slot_of(after, key) == (if key == k {
            Some(entries.len() as int)
        } else {
            slot_of(entries, key)
        }) by {
        lemma_slot_of(entries, key);
    }
    let goal = slots_map(entries).insert(k, value);
    assert forall|key: u64| #[trigger]
        slots_map(after).dom().contains(key) == goal.dom().contains(key) by {
        assert(slot_of(after, key) is Some == (key == k || slot_of(entries, key) is Some));
    }
    assert forall|key: u64| #[trigger] slots_map(after).dom().contains(key) implies slots_map(
        after,
    )[key] == goal[key] by {
        lemma_slot_of(entries, key);
        if key != k {
            assert(slot_of(after, key) == slot_of(entries, key));
            assert(after[slot_of(entries, key)->0] == entries[slot_of(entries, key)->0]);
        }
    }
    assert(slots_map(after) =~= goal);
}

/// A map from `u64` keys to values, with its entries in the order in which
/// their keys first came.
#[derive(Debug)]
pub struct KeyMap<V> {
    entries: Vec<(u64, V)>,
    index: HashMap<u64, usize>,
}

impl<V> KeyMap<V> {
    /// The entries in the order in which their keys first came.
    pub closed spec fn entries(&self) -> Seq<(u64, V)> {
        self.entries@
    }

    /// The index leads from each key to its entry, and to nothing else.
    #[verifier::type_invariant]
    closed spec fn wf(&self) -> bool {
        &&& forall|i: int|
            0 <= i < self.entries@.len() ==> self.index@.contains_key(
                (#[trigger] self.entries@[i]).0,
            ) && self.index@[self.entries@[i].0] == i
        &&& forall|k: u64| #[trigger]
            self.index@.contains_key(k) ==> self.index@[k] < self.entries@.len()
                && self.entries@[self.index@[k] as int].0 == k
    }

    /// What the map holds under each key.
    pub open spec fn view(&self) -> Map<u64, V> {
        slots_map(self.entries())
    }

    /// Recalls that no two entries have the same key.
    pub fn keys_are_distinct(&self)
        ensures
            slots_distinct(self.entries()),
    {
        proof {
            use_type_invariant(self);
        }
    }

    /// A map that holds nothing.
    pub fn new() -> (m: Self)
        ensures
            m.entries() == Seq::<(u64, V)>::empty(),
            m@ == Map::<u64, V>::empty(),
    {
        let m = KeyMap { entries: Vec::new(), index: HashMap::new() };
        proof {
            assert(m@ =~= Map::<u64, V>::empty());
        }
        m
    }

    /// The number of entries.
    pub fn len(&self) -> (n: usize)
        ensures
            n == self.entries().len(),
    {
        self.entries.len()
    }

    /// The entry at `i`, in the order in which the keys first came.
    pub fn entry(&self, i: usize) -> (r: (u64, &V))
        requires
            i < self.entries().len(),
        ensures
            r.0 == self.entries()[i as int].0,
            *r.1 == self.entries()[i as int].1,
            slot_of(self.entries(), r.0) == Some(i as int),
    {
        proof {
            use_type_invariant(self);
            lemma_slot_of_own(self.entries(), i as int);
        }
        (self.entries[i].0, &self.entries[i].1)
    }

    /// Where the entry with the key `key` stands.
    pub fn find(&self, key: u64) -> (r: Option<usize>)
        ensures
            match r {
                Some(i) => i < self.entries().len() && slot_of(self.entries(), key) == Some(
                    i as int,
                ),
                None => slot_of(self.entries(), key) is None,
            },
    {
        proof {
            use_type_invariant(self);
            lemma_slot_of(self.entries(), key);
        }
        match self.index.get(&key) {
            Some(i) => {
                proof {
                    let p = slot_of(self.entries(), key);
                    if p is Some && p->0 != *i {
                        assert(self.entries@[p->0].0 == key);
                    }
                    if p is None {
                        assert(self.entries@[*i as int].0 == key);
                    }
                }
                Some(*i)
            },
            None => {
                proof {
                    let p = slot_of(self.entries(), key);
                    if p is Some {
                        assert(self.entries@[p->0].0 == key);
                    }
                }
                None
            },
        }
    }

    /// The value of `key`, if it has one.
    pub fn get(&self, key: u64) -> (r: Option<&V>)
        ensures
            match r {
                Some(v) => self@.contains_key(key) && *v == self@[key],
                None => !self@.contains_key(key),
            },
    {
        match self.find(key) {
            Some(i) => Some(&self.entries[i].1),
            None => None,
        }
    }

    /// Whether `key` has a value.
    pub fn contains_key(&self, key: u64) -> (r: bool)
        ensures
            r == self@.contains_key(key),
    {
        self.find(key).is_some()
    }

    /// Gives `key` the value `value`. A key that is new joins the end of the
    /// entries; one that is there keeps its place.
    pub fn insert(&mut self, key: u64, value: V)
        ensures
            final(self)@ == old(self)@.insert(key, value),
            final(self).entries() == (match slot_of(old(self).entries(), key) {
                Some(i) => old(self).entries().update(i, (key, value)),
                None => old(self).entries().push((key, value)),
            }),
    {
        let ghost before = self.entries();
        proof {
            use_type_invariant(&*self);
            lemma_slot_of(before, key);
        }
        let found = self.find(key);
        let mut taken: KeyMap<V> = KeyMap::new();
        std::mem::swap(&mut taken, self);
        let KeyMap { mut entries, mut index } = taken;
        match found {
            Some(i) => {
                entries.set(i, (key, value));
                proof {
                    assert(entries@ =~= before.update(i as int, (key, value)));
                    lemma_slots_map_update(before, i as int, value);
                }
            },
            None => {
                let n = entries.len();
                entries.push((key, value));
                index.insert(key, n);
                proof {
                    lemma_slots_map_push(before, key, value);
                }
            },
        }
        *self = KeyMap { entries, index };
    }

    /// Puts `value` into the entry at `i`, which keeps its key.
    pub fn set_at(&mut self, i: usize, value: V)
        requires
            i < old(self).entries().len(),
        ensures
            final(self).entries() == old(self).entries().update(
                i as int,
                (old(self).entries()[i as int].0, value),
            ),
            final(self)@ == old(self)@.insert(old(self).entries()[i as int].0, value),
    {
        let ghost before = self.entries();
        proof {
            use_type_invariant(&*self);
            lemma_slot_of_own_wf(before, self.index@, i as int);
        }
        let mut taken: KeyMap<V> = KeyMap::new();
        std::mem::swap(&mut taken, self);
        let KeyMap { mut entries, mut index } = taken;
        let key = entries[i].0;
        entries.set(i, (key, value));
        proof {
            assert(entries@ =~= before.update(i as int, (key, value)));
            lemma_slots_map_update(before, i as int, value);
        }
        *self = KeyMap { entries, index };
    }

    /// Takes the value of the entry at `i` and leaves `value` in its place.
    pub fn swap_at(&mut self, i: usize, value: V) -> (r: V)
        requires
            i < old(self).entries().len(),
        ensures
            r == old(self).entries()[i as int].1,
            final(self).entries() == old(self).entries().update(
                i as int,
                (old(self).entries()[i as int].0, value),
            ),
            final(self)@ == old(self)@.insert(old(self).entries()[i as int].0, value),
    {
        let ghost before = self.entries();
        proof {
            use_type_invariant(&*self);
            lemma_slot_of_own_wf(before, self.index@, i as int);
        }
        let mut taken: KeyMap<V> = KeyMap::new();
        std::mem::swap(&mut taken, self);
        let KeyMap { mut entries, mut index } = taken;
        let key = entries[i].0;
        entries.push((key, value));
        let old_entry = entries.swap_remove(i);
        proof {
            assert(entries@ =~= before.update(i as int, (key, value)));
            lemma_slots_map_update(before, i as int, value);
        }
        *self = KeyMap { entries, index };
        old_entry.1
    }

    /// Forgets every entry.
    pub fn clear(&mut self)
        ensures
            final(self).entries() == Seq::<(u64, V)>::empty(),
            final(self)@ == Map::<u64, V>::empty(),
    {
        *self = KeyMap::new();
    }
}

/// Where an index leads from each key to its entry, each entry is the one
/// that its key leads to.
proof fn lemma_slot_of_own_wf<V>(entries: Seq<(u64, V)>, index: Map<u64, usize>, i: int)
    requires
        0 <= i < entries.len(),
        forall|j: int|
            0 <= j < entries.len() ==> index.contains_key((#[trigger] entries[j]).0)
                && index[entries[j].0] == j,
    ensures
        slot_of(entries, entries[i].0) == Some(i),
        slots_distinct(entries),
{
    lemma_slot_of(entries, entries[i].0);
    let p = slot_of(entries, entries[i].0);
    assert(entries[p->0].0 == entries[i].0);
}

} // verus!
