//! A bounded memory from words to their encodings.

use crate::model::{cache_fits, ids_resolve, strings_view};
use crate::strmap::{keys_distinct, lemma_position_of, position_of, StrMap};
use crate::word::{Symbol, Word};
use std::collections::HashMap;
use vstd::prelude::*;

verus! {

broadcast use vstd::std_specs::hash::group_hash_axioms;

/// Whether every id of a word has a string in `strings`.
pub fn word_resolves(word: &Word, strings: &HashMap<u32, String>) -> (r: bool)
    ensures
        r == ids_resolve(word@, strings_view(strings@)),
{
    let ids = word.get_chars();
    let mut i: usize = 0;
    while i < ids.len()
        invariant
            i <= ids@.len(),
            ids@ == crate::word::chars_of(word@),
            forall|j: int| 0 <= j < i ==> strings@.contains_key((#[trigger] word@[j]).c),
        decreases ids@.len() - i,
    {
        if !strings.contains_key(&ids[i]) {
            assert(!strings_view(strings@).contains_key(word@[i as int].c));
            return false;
        }
        i = i + 1;
    }
    true
}

/// The words of a cache as symbol sequences.
pub open spec fn words_view(m: Map<Seq<char>, Word>) -> Map<Seq<char>, Seq<Symbol>> {
    Map::new(|k: Seq<char>| m.contains_key(k), |k: Seq<char>| m[k]@)
}

/// A bounded memory from words to their encodings. Once it is full it takes
/// no more.
#[derive(Debug)]
pub struct Cache {
    map: StrMap<Word>,
    capacity: usize,
}

impl Cache {
    /// The words that are held, each with its encoding.
    pub closed spec fn view(&self) -> Map<Seq<char>, Seq<Symbol>> {
        words_view(self.map@)
    }

    /// How many words are held.
    pub closed spec fn count(&self) -> nat {
        self.map.entries().len()
    }

    /// How many words can be held.
    pub closed spec fn capacity(&self) -> usize {
        self.capacity
    }

    /// An empty cache for `capacity` words.
    pub fn new(capacity: usize) -> (c: Self)
        ensures
            c@ == Map::<Seq<char>, Seq<Symbol>>::empty(),
            c.count() == 0,
            c.capacity() == capacity,
    {
        let c = Cache { map: StrMap::new(), capacity };
        assert(c@ =~= Map::<Seq<char>, Seq<Symbol>>::empty());
        c
    }

    /// An empty cache of the same capacity.
    pub fn fresh(&self) -> (c: Self)
        ensures
            c@ == Map::<Seq<char>, Seq<Symbol>>::empty(),
            c.count() == 0,
            c.capacity() == self.capacity(),
    {
        Cache::new(self.capacity)
    }

    /// Forgets every word.
    pub fn clear(&mut self)
        ensures
            final(self)@ == Map::<Seq<char>, Seq<Symbol>>::empty(),
            final(self).count() == 0,
            final(self).capacity() == old(self).capacity(),
    {
        self.map = StrMap::new();
        assert(self@ =~= Map::<Seq<char>, Seq<Symbol>>::empty());
    }

    /// The encoding held for `key`.
    pub fn get(&self, key: &str) -> (r: Option<&Word>)
        ensures
            match r {
                Some(w) => self@.contains_key(key@) && w@ == self@[key@],
                None => !self@.contains_key(key@),
            },
    {
        self.map.get(key)
    }

    /// Whether every word that is held has a string in `strings` for each of
    /// its ids, and a summed length that fits.
    pub fn fits(&self, strings: &HashMap<u32, String>) -> (r: bool)
        ensures
            r == cache_fits(self@, strings_view(strings@)),
    {
        let n = self.map.len();
        let mut i: usize = 0;
        self.map.keys_are_distinct();
        while i < n
            invariant
                i <= n,
                n == self.map.entries().len(),
                keys_distinct(self.map.entries()),
                forall|j: int|
                    0 <= j < i ==> ids_resolve(
                        (#[trigger] self.map.entries()[j]).1@,
                        strings_view(strings@),
                    ) && crate::word::total_len(self.map.entries()[j].1@) <= usize::MAX,
            decreases n - i,
        {
            let (k, w) = self.map.entry(i);
            if !(word_resolves(w, strings) && w.lengths_fit()) {
                proof {
                    self.map.lemma_get(k@);
                    lemma_position_of(self.map.entries(), k@);
                    if position_of(self.map.entries(), k@)->0 != i {
                        assert(self.map.entries()[position_of(self.map.entries(), k@)->0].0 == k@);
                    }
                    assert(self@.contains_key(k@) && self@[k@] == w@);
                }
                return false;
            }
            i = i + 1;
        }
        proof {
            assert forall|k: Seq<char>| self@.contains_key(k) implies ids_resolve(
                #[trigger] self@[k],
                strings_view(strings@),
            ) && crate::word::total_len(self@[k]) <= usize::MAX by {
                self.map.lemma_get(k);
                lemma_position_of(self.map.entries(), k);
                let j = position_of(self.map.entries(), k)->0;
                assert(self.map.entries()[j].0 == k);
            }
        }
        true
    }

    /// Holds `value` for `key` if the cache is not full.
    pub fn set(&mut self, key: String, value: Word)
        ensures
            final(self).capacity() == old(self).capacity(),
            final(self)@ == (if old(self).count() < old(self).capacity() {
                old(self)@.insert(key@, value@)
            } else {
                old(self)@
            }),
            final(self).count() == (if old(self).count() < old(self).capacity()
                && !old(self)@.contains_key(key@) {
                old(self).count() + 1
            } else {
                old(self).count()
            }),
    {
        if self.map.len() < self.capacity {
            let ghost before = self.map@;
            let ghost entries = self.map.entries();
            let ghost k = key@;
            let ghost v = value@;
            proof {
                self.map.lemma_get(k);
                crate::strmap::lemma_position_of(entries, k);
            }
            self.map.insert(key, value);
            assert(self@ =~= words_view(before).insert(k, v));
            assert(words_view(before).contains_key(k) == before.contains_key(k));
            assert(before.contains_key(k) == (crate::strmap::position_of(entries, k) is Some));
        }
    }
}

/// Two caches count as equal whatever they hold: a cache changes no
/// encoding.
impl PartialEq for Cache {
    /// Always true.
    fn eq(&self, other: &Self) -> (r: bool) {
        true
    }
}

impl vstd::std_specs::cmp::PartialEqSpecImpl for Cache {
    open spec fn obeys_eq_spec() -> bool {
        true
    }

    open spec fn eq_spec(&self, other: &Self) -> bool {
        true
    }
}

} // verus!
