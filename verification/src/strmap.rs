//! A map from strings to values that keeps its entries in the order in which
//! their keys first came, with an index from the hash of a key to the
//! entries that have it.

use std::collections::HashMap;
use vstd::prelude::*;
use vstd::std_specs::cmp::PartialEqSpecImpl;
use vstd::string::*;
use vstd::utf8::*;

verus! {

broadcast use vstd::std_specs::hash::group_hash_axioms;

/// The FNV-1a hash of a byte sequence.
pub open spec fn bytes_hash(bytes: Seq<u8>) -> u64
    decreases bytes.len(),
{
    if bytes.len() == 0 {
        0xcbf2_9ce4_8422_2325u64
    } else {
        (bytes_hash(bytes.drop_last()) ^ (bytes.last() as u64)).wrapping_mul(0x100_0000_01b3u64)
    }
}

/// The hash of a text: that of its UTF-8 bytes.
pub open spec fn text_hash(text: Seq<char>) -> u64 {
    bytes_hash(encode_utf8(text))
}

/// The hash of a string.
pub fn hash_str(s: &str) -> (h: u64)
    ensures
        h == text_hash(s@),
{
    let bytes = s.as_bytes();
    let mut h: u64 = 0xcbf2_9ce4_8422_2325u64;
    let mut i: usize = 0;
    while i < bytes.len()
        invariant
            i <= bytes@.len(),
            h == bytes_hash(bytes@.take(i as int)),
        decreases bytes@.len() - i,
    {
        proof {
            assert(bytes@.take(i + 1).drop_last() =~= bytes@.take(i as int));
        }
        h = (h ^ (bytes[i] as u64)).wrapping_mul(0x100_0000_01b3u64);
        i = i + 1;
    }
    proof {
        assert(bytes@.take(i as int) =~= bytes@);
    }
    h
}

/// Two texts with the same UTF-8 bytes are the same text.
pub proof fn lemma_same_bytes_same_text(a: Seq<char>, b: Seq<char>)
    requires
        encode_utf8(a) == encode_utf8(b),
    ensures
        a == b,
{
    encode_utf8_decode_utf8(a);
    encode_utf8_decode_utf8(b);
}

/// Whether two strings hold the same text.
pub fn str_eq(a: &str, b: &str) -> (r: bool)
    ensures
        r == (a@ == b@),
{
    let x = a.as_bytes();
    let y = b.as_bytes();
    if x.len() != y.len() {
        return false;
    }
    let mut i: usize = 0;
    while i < x.len()
        invariant
            i <= x@.len(),
            x@.len() == y@.len(),
            x@ == encode_utf8(a@),
            y@ == encode_utf8(b@),
            forall|j: int| 0 <= j < i ==> x@[j] == y@[j],
        decreases x@.len() - i,
    {
        if x[i] != y[i] {
            return false;
        }
        i = i + 1;
    }
    proof {
        assert(x@ =~= y@);
        lemma_same_bytes_same_text(a@, b@);
    }
    true
}

/// The index of the first entry with the key `key`, if there is one.
pub open spec fn position_of<V>(entries: Seq<(Seq<char>, V)>, key: Seq<char>) -> Option<int>
    decreases entries.len(),
{
    if entries.len() == 0 {
        None
    } else {
        match position_of(entries.drop_last(), key) {
            Some(i) => Some(i),
            None => if entries.last().0 == key {
                Some(entries.len() - 1)
            } else {
                None
            },
        }
    }
}

/// What `position_of` finds is an entry with the key, and the first such.
pub proof fn lemma_position_of<V>(entries: Seq<(Seq<char>, V)>, key: Seq<char>)
    ensures
        match position_of(entries, key) {
            Some(i) => 0 <= i < entries.len() && entries[i].0 == key && forall|j: int|
                0 <= j < i ==> (#[trigger] entries[j]).0 != key,
            None => forall|j: int| 0 <= j < entries.len() ==> (#[trigger] entries[j]).0 != key,
        },
    decreases entries.len(),
{
    if entries.len() > 0 {
        lemma_position_of(entries.drop_last(), key);
        assert forall|j: int| 0 <= j < entries.len() - 1 implies #[trigger] entries[j]
            == entries.drop_last()[j] by {}
    }
}

/// The map that a list of entries stands for: a key is mapped to the value of
/// the first entry that has it.
pub open spec fn entries_map<V>(entries: Seq<(Seq<char>, V)>) -> Map<Seq<char>, V> {
    Map::new(
        |k: Seq<char>| position_of(entries, k) is Some,
        |k: Seq<char>| entries[position_of(entries, k)->0].1,
    )
}

/// No two entries have the same key.
pub open spec fn keys_distinct<V>(entries: Seq<(Seq<char>, V)>) -> bool {
    forall|i: int, j: int|
        0 <= i < j < entries.len() ==> (#[trigger] entries[i]).0 != (#[trigger] entries[j]).0
}

/// A map from strings to values, with its entries in the order in which
/// their keys first came.
#[derive(Debug)]
pub struct StrMap<V> {
    entries: Vec<(String, V)>,
    index: HashMap<u64, Vec<usize>>,
}

impl<V> StrMap<V> {
    /// The entries in the order in which their keys first came.
    pub closed spec fn entries(&self) -> Seq<(Seq<char>, V)> {
        Seq::new(self.entries@.len(), |i: int| (self.entries@[i].0@, self.entries@[i].1))
    }

    /// The entries have distinct keys, and the index leads to each of them.
    #[verifier::type_invariant]
    closed spec fn wf(&self) -> bool {
        &&& keys_distinct(self.entries())
        &&& forall|i: int|
            0 <= i < self.entries@.len() ==> self.index@.contains_key(
                text_hash(#[trigger] self.entries@[i].0@),
            ) && self.index@[text_hash(self.entries@[i].0@)]@.contains(i as usize)
    }

    /// What the map holds under each key.
    pub open spec fn view(&self) -> Map<Seq<char>, V> {
        entries_map(self.entries())
    }

    /// Recalls that no two entries have the same key.
    pub fn keys_are_distinct(&self)
        ensures
            keys_distinct(self.entries()),
    {
        proof {
            use_type_invariant(self);
        }
    }

    /// A map that holds nothing.
    pub fn new() -> (m: Self)
        ensures
            m.entries() == Seq::<(Seq<char>, V)>::empty(),
            m@ == Map::<Seq<char>, V>::empty(),
    {
        let m = StrMap { entries: Vec::new(), index: HashMap::new() };
        proof {
            assert(m.entries() =~= Seq::<(Seq<char>, V)>::empty());
            assert(m@ =~= Map::<Seq<char>, V>::empty());
        }
        m
    }

    /// The number of entries.
    pub fn len(&self) -> (n: usize)
        ensures
            n == self.entries().len(),
    {
        self.entries.len()
    }

    /// The entry at `i`, in the order in which the keys first came.
    pub fn entry(&self, i: usize) -> (r: (&String, &V))
        requires
            i < self.entries().len(),
        ensures
            r.0@ == self.entries()[i as int].0,
            *r.1 == self.entries()[i as int].1,
    {
        (&self.entries[i].0, &self.entries[i].1)
    }

    /// Where the entry with the key `key` stands.
    fn find(&self, key: &str) -> (r: Option<usize>)
        ensures
            match r {
                Some(i) => i < self.entries().len() && position_of(self.entries(), key@) == Some(
                    i as int,
                ),
                None => position_of(self.entries(), key@) is None,
            },
    {
        proof {
            use_type_invariant(self);
            lemma_position_of(self.entries(), key@);
        }
        let h = hash_str(key);
        let n = self.entries.len();
        match self.index.get(&h) {
            None => {
                proof {
                    if position_of(self.entries(), key@) is Some {
                        let i = position_of(self.entries(), key@)->0;
                        assert(self.entries()[i].0 == self.entries@[i].0@);
                        assert(self.index@.contains_key(text_hash(self.entries@[i].0@)));
                    }
                }
                None
            },
            Some(bucket) => {
                let mut t: usize = 0;
                while t < bucket.len()
                    invariant
                        t <= bucket@.len(),
                        n == self.entries@.len(),
                        self.wf(),
                        h == text_hash(key@),
                        self.index@.contains_key(h),
                        bucket@ == self.index@[h]@,
                        forall|u: int|
                            0 <= u < t ==> !(#[trigger] bucket@[u] < self.entries@.len()
                                && self.entries@[bucket@[u] as int].0@ == key@),
                    decreases bucket@.len() - t,
                {
                    let idx = bucket[t];
                    if idx < self.entries.len() && str_eq(self.entries[idx].0.as_str(), key) {
                        proof {
                            lemma_position_of(self.entries(), key@);
                            assert(self.entries()[idx as int].0 == key@);
                            let p = position_of(self.entries(), key@)->0;
                            if p != idx {
                                assert(self.entries()[p].0 == key@);
                                assert(keys_distinct(self.entries()));
                            }
                        }
                        return Some(idx);
                    }
                    t = t + 1;
                }
                proof {
                    lemma_position_of(self.entries(), key@);
                    if position_of(self.entries(), key@) is Some {
                        let i = position_of(self.entries(), key@)->0;
                        assert(self.entries()[i].0 == self.entries@[i].0@);
                        assert(bucket@.contains(i as usize));
                        let u = choose|u: int| 0 <= u < bucket@.len() && bucket@[u] == i as usize;
                        assert(bucket@[u] < self.entries@.len());
                    }
                }
                None
            },
        }
    }

    /// The value of `key`, if it has one.
    pub fn get(&self, key: &str) -> (r: Option<&V>)
        ensures
            match r {
                Some(v) => self@.contains_key(key@) && *v == self@[key@],
                None => !self@.contains_key(key@),
            },
    {
        match self.find(key) {
            Some(i) => Some(&self.entries[i].1),
            None => None,
        }
    }

    /// The map holds under a key what the first entry with that key holds.
    pub proof fn lemma_get(&self, key: Seq<char>)
        ensures
            self@.contains_key(key) == (position_of(self.entries(), key) is Some),
            self@.contains_key(key) ==> self@[key] == self.entries()[position_of(
                self.entries(),
                key,
            )->0].1,
    {
    }

    /// Whether `key` has a value.
    pub fn contains_key(&self, key: &str) -> (r: bool)
        ensures
            r == self@.contains_key(key@),
    {
        self.find(key).is_some()
    }

    /// Gives `key` the value `value`. A key that is new joins the end of the
    /// entries; one that is there keeps its place.
    pub fn insert(&mut self, key: String, value: V)
        ensures
            final(self)@ == old(self)@.insert(key@, value),
            final(self).entries() == (match position_of(old(self).entries(), key@) {
                Some(i) => old(self).entries().update(i, (key@, value)),
                None => old(self).entries().push((key@, value)),
            }),
    {
        let ghost before = self.entries();
        let ghost k = key@;
        proof {
            use_type_invariant(&*self);
            lemma_position_of(before, k);
        }
        let found = self.find(key.as_str());
        let mut entries: Vec<(String, V)> = Vec::new();
        let mut index: HashMap<u64, Vec<usize>> = HashMap::new();
        std::mem::swap(&mut entries, &mut self.entries);
        std::mem::swap(&mut index, &mut self.index);
        let ghost entries0 = entries@;
        let ghost index0 = index@;
        match found {
            Some(i) => {
                entries.set(i, (key, value));
                proof {
                    let after = Seq::new(
                        entries@.len(),
                        |i: int| (entries@[i].0@, entries@[i].1),
                    );
                    assert(after =~= before.update(i as int, (k, value)));
                    assert forall|x: int, y: int| 0 <= x < y < after.len() implies (
                    #[trigger] after[x]).0 != (#[trigger] after[y]).0 by {
                        assert(after[x].0 == before[x].0);
                        assert(after[y].0 == before[y].0);
                    }
                    assert forall|x: int| 0 <= x < entries@.len() implies index@.contains_key(
                        text_hash(#[trigger] entries@[x].0@),
                    ) && index@[text_hash(entries@[x].0@)]@.contains(x as usize) by {
                        assert(after[x].0 == before[x].0);
                        assert(before[x].0 == entries0[x].0@);
                    }
                    lemma_entries_map_update(before, i as int, value);
                }
                *self = StrMap { entries, index };
                proof {
                    assert(self.entries() =~= before.update(i as int, (k, value)));
                }
            },
            None => {
                let n = entries.len();
                let h = hash_str(key.as_str());
                entries.push((key, value));
                let mut bucket: Vec<usize> = match index.remove(&h) {
                    Some(b) => b,
                    None => Vec::new(),
                };
                let ghost old_bucket = bucket@;
                bucket.push(n);
                let ghost new_bucket = bucket@;
                index.insert(h, bucket);
                proof {
                    let after = Seq::new(
                        entries@.len(),
                        |i: int| (entries@[i].0@, entries@[i].1),
                    );
                    assert(after =~= before.push((k, value)));
                    assert forall|x: int, y: int| 0 <= x < y < after.len() implies (
                    #[trigger] after[x]).0 != (#[trigger] after[y]).0 by {
                        if y < n {
                            assert(after[x] == before[x]);
                            assert(after[y] == before[y]);
                        } else {
                            assert(after[x] == before[x]);
                        }
                    }
                    assert forall|x: int| 0 <= x < entries@.len() implies index@.contains_key(
                        text_hash(#[trigger] entries@[x].0@),
                    ) && index@[text_hash(entries@[x].0@)]@.contains(x as usize) by {
                        if x < n {
                            assert(entries@[x] == entries0[x]);
                            let hx = text_hash(entries@[x].0@);
                            assert(index0[hx]@.contains(x as usize));
                            if hx == h {
                                let u = choose|u: int|
                                    0 <= u < old_bucket.len() && old_bucket[u] == x as usize;
                                assert(new_bucket[u] == x as usize);
                            }
                        } else {
                            assert(new_bucket[new_bucket.len() - 1] == n);
                        }
                    }
                    lemma_entries_map_push(before, k, value);
                }
                *self = StrMap { entries, index };
                proof {
                    assert(self.entries() =~= before.push((k, value)));
                }
            },
        }
    }
}

/// Replacing the value of the entry that a key leads to gives the key that
/// value in the map.
pub proof fn lemma_entries_map_update<V>(entries: Seq<(Seq<char>, V)>, i: int, value: V)
    requires
        0 <= i < entries.len(),
        position_of(entries, entries[i].0) == Some(i),
    ensures
        entries_map(entries.update(i, (entries[i].0, value))) == entries_map(entries).insert(
            entries[i].0,
            value,
        ),
{
    let k = entries[i].0;
    let after = entries.update(i, (k, value));
    assert forall|key: Seq<char>| position_of(after, key) == position_of(entries, key) by {
        lemma_position_of(after, key);
        lemma_position_of(entries, key);
        match position_of(entries, key) {
            Some(p) => {
                assert(after[p].0 == key);
                match position_of(after, key) {
                    Some(q) => {
                        assert(entries[q].0 == key);
                    },
                    None => {},
                }
            },
            None => {
                match position_of(after, key) {
                    Some(q) => {
                        assert(entries[q].0 == key);
                    },
                    None => {},
                }
            },
        }
    }
    let goal = entries_map(entries).insert(k, value);
    assert forall|key: Seq<char>| #[trigger]
        entries_map(after).dom().contains(key) == goal.dom().contains(key) by {
        assert(position_of(after, key) == position_of(entries, key));
    }
    assert forall|key: Seq<char>| #[trigger] entries_map(after).dom().contains(key) implies entries_map(
        after,
    )[key] == goal[key] by {
        assert(position_of(after, key) == position_of(entries, key));
        lemma_position_of(entries, key);
        let p = position_of(entries, key)->0;
        if key == k {
            assert(p == i);
        } else {
            assert(entries[p].0 == key);
            assert(p != i);
            assert(after[p] == entries[p]);
        }
    }
    assert(entries_map(after) =~= goal);
}

/// Appending an entry with a new key gives the key that value in the map.
pub proof fn lemma_entries_map_push<V>(entries: Seq<(Seq<char>, V)>, k: Seq<char>, value: V)
    requires
        position_of(entries, k) is None,
    ensures
        entries_map(entries.push((k, value))) == entries_map(entries).insert(k, value),
{
    let after = entries.push((k, value));
    assert(after.drop_last() =~= entries);
    assert forall|key: Seq<char>|
        #[trigger] position_of(after, key) == (if key == k {
            Some(entries.len() as int)
        } else {
            position_of(entries, key)
        }) by {
        lemma_position_of(entries, key);
    }
    let goal = entries_map(entries).insert(k, value);
    assert forall|key: Seq<char>| #[trigger]
        entries_map(after).dom().contains(key) == goal.dom().contains(key) by {
        assert(position_of(after, key) is Some == (key == k || position_of(entries, key) is Some));
    }
    assert forall|key: Seq<char>| #[trigger] entries_map(after).dom().contains(key) implies entries_map(
        after,
    )[key] == goal[key] by {
        lemma_position_of(entries, key);
        if key != k {
            assert(position_of(after, key) == position_of(entries, key));
            assert(after[position_of(entries, key)->0] == entries[position_of(entries, key)->0]);
        }
    }
    assert(entries_map(after) =~= goal);
}

impl StrMap<u32> {
    /// A copy with the same entries in the same order.
    pub fn duplicate(&self) -> (r: Self)
        ensures
            r.entries() == self.entries(),
            r@ == self@,
    {
        let mut out: StrMap<u32> = StrMap::new();
        let n = self.len();
        let mut i: usize = 0;
        proof {
            assert(self.entries().take(0) =~= Seq::<(Seq<char>, u32)>::empty());
        }
        self.keys_are_distinct();
        while i < n
            invariant
                i <= n,
                n == self.entries().len(),
                keys_distinct(self.entries()),
                out.entries() == self.entries().take(i as int),
            decreases n - i,
        {
            let (k, v) = self.entry(i);
            proof {
                let head = self.entries().take(i as int);
                lemma_position_of(head, k@);
                if position_of(head, k@) is Some {
                    let p = position_of(head, k@)->0;
                    assert(head[p] == self.entries()[p]);
                }
                assert(self.entries().take(i + 1) =~= head.push((k@, *v)));
            }
            out.insert(k.clone(), *v);
            i = i + 1;
        }
        proof {
            assert(self.entries().take(n as int) =~= self.entries());
        }
        out
    }
}

impl StrMap<u32> {
    /// Whether `other` holds under every key of this map what this map
    /// holds.
    pub fn is_within(&self, other: &Self) -> (r: bool)
        ensures
            r == (forall|k: Seq<char>| #[trigger]
                self@.contains_key(k) ==> other@.contains_key(k) && other@[k] == self@[k]),
    {
        let n = self.len();
        let mut i: usize = 0;
        self.keys_are_distinct();
        while i < n
            invariant
                i <= n,
                n == self.entries().len(),
                keys_distinct(self.entries()),
                forall|j: int|
                    0 <= j < i ==> other@.contains_key((#[trigger] self.entries()[j]).0) && other@[self.entries()[j].0]
                        == self.entries()[j].1,
            decreases n - i,
        {
            let (k, v) = self.entry(i);
            proof {
                self.lemma_get(k@);
                lemma_position_of(self.entries(), k@);
                if position_of(self.entries(), k@)->0 != i {
                    assert(self.entries()[position_of(self.entries(), k@)->0].0 == k@);
                }
            }
            let same = match other.get(k.as_str()) {
                Some(w) => *w == *v,
                None => false,
            };
            if !same {
                assert(self@.contains_key(k@) && self@[k@] == *v);
                return false;
            }
            i = i + 1;
        }
        proof {
            assert forall|k: Seq<char>| #[trigger] self@.contains_key(k) implies other@.contains_key(k)
                && other@[k] == self@[k] by {
                self.lemma_get(k);
                lemma_position_of(self.entries(), k);
                let j = position_of(self.entries(), k)->0;
                assert(self.entries()[j].0 == k);
            }
        }
        true
    }
}

/// Two maps are equal if they hold the same under the same keys, in
/// whatever order the keys came.
impl PartialEq for StrMap<u32> {
    /// Whether the two maps hold the same under the same keys.
    fn eq(&self, other: &Self) -> (r: bool) {
        let r = self.is_within(other) && other.is_within(self);
        proof {
            if r {
                assert(self@ =~= other@);
            }
        }
        r
    }
}

impl PartialEqSpecImpl for StrMap<u32> {
    open spec fn obeys_eq_spec() -> bool {
        true
    }

    open spec fn eq_spec(&self, other: &Self) -> bool {
        self@ == other@
    }
}

} // verus!
