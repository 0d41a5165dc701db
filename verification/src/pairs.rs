//! The pair index of training: how often each pair of adjacent symbols
//! occurs in the corpus, in which words it has newly come up, and the queue
//! of the pairs that may be merged next.

use crate::keymap::{lemma_slot_of, slot_of, KeyMap};
use crate::queue::{
    queue_change_priority, queue_contents, queue_is_empty, queue_new, queue_pop, queue_push,
    priority_le, Priority,
};
use crate::tables::{key_of, pair_key};
use crate::word::{Symbol, Word};
use priority_queue::PriorityQueue;
use std::collections::HashMap;
use vstd::prelude::*;

verus! {

broadcast use vstd::std_specs::hash::group_hash_axioms;

/// For each pair, by its key, how often it occurs.
pub type Counts = Map<u64, i64>;

/// The pairs that have newly come up, each with the words in which it has,
/// in the order in which they were met.
pub type Fresh = Seq<(u64, Seq<usize>)>;

/// The position list with `i` in it: at its end if it was not there.
pub open spec fn with_position(list: Seq<usize>, i: usize) -> Seq<usize> {
    if list.contains(i) {
        list
    } else {
        list.push(i)
    }
}

/// The fresh pairs after the pair of `key` has come up in word `i`.
pub open spec fn note_position(fresh: Fresh, key: u64, i: usize) -> Fresh {
    match slot_of(fresh, key) {
        Some(s) => fresh.update(s, (key, with_position(fresh[s].1, i))),
        None => fresh.push((key, seq![i])),
    }
}

/// The count of a pair, zero if it has none.
pub open spec fn count_of(counts: Counts, key: u64) -> i64 {
    if counts.contains_key(key) {
        counts[key]
    } else {
        0
    }
}

/// The counts and the fresh pairs while pairs are counted.
pub struct Tally {
    pub counts: Counts,
    pub fresh: Fresh,
}

/// The tally after the pair `(a, b)` has been seen in word `i`, which occurs
/// `count` times. `None` if the new count does not fit.
pub open spec fn count_window(t: Tally, a: u32, b: u32, i: usize, count: i64) -> Option<Tally> {
    let key = pair_key((a, b));
    match count_of(t.counts, key).checked_add(count) {
        None => None,
        Some(v) => Some(Tally { counts: t.counts.insert(key, v), fresh: note_position(t.fresh, key, i) }),
    }
}

/// The tally after the first `n` pairs of word `i`.
pub open spec fn count_word(t: Tally, word: Seq<Symbol>, i: usize, count: i64, n: int) -> Option<Tally>
    decreases n,
{
    if n <= 0 {
        Some(t)
    } else {
        match count_word(t, word, i, count, n - 1) {
            None => None,
            Some(u) => count_window(u, word[n - 1].c, word[n].c, i, count),
        }
    }
}

/// The tally after the first `n` words.
pub open spec fn count_words(t: Tally, words: Seq<Seq<Symbol>>, counts: Seq<i64>, n: int) -> Option<Tally>
    decreases n,
{
    if n <= 0 {
        Some(t)
    } else {
        match count_words(t, words, counts, n - 1) {
            None => None,
            Some(u) => count_word(
                u,
                words[n - 1],
                (n - 1) as usize,
                counts[n - 1],
                words[n - 1].len() - 1,
            ),
        }
    }
}

/// The fresh pairs of a map as mathematical values.
pub open spec fn fresh_view(entries: Seq<(u64, Vec<usize>)>) -> Fresh {
    Seq::new(entries.len(), |i: int| (entries[i].0, entries[i].1@))
}

/// A key leads to the same entry in a map and in its view.
pub proof fn lemma_fresh_view_slot(entries: Seq<(u64, Vec<usize>)>, key: u64)
    ensures
        slot_of(fresh_view(entries), key) == slot_of(entries, key),
    decreases entries.len(),
{
    if entries.len() > 0 {
        lemma_fresh_view_slot(entries.drop_last(), key);
        assert(fresh_view(entries).drop_last() =~= fresh_view(entries.drop_last()));
    }
}

/// Whether `list` holds `i`.
pub fn holds(list: &Vec<usize>, i: usize) -> (r: bool)
    ensures
        r == list@.contains(i),
{
    let mut j: usize = 0;
    while j < list.len()
        invariant
            j <= list@.len(),
            forall|k: int| 0 <= k < j ==> list@[k] != i,
        decreases list@.len() - j,
    {
        if list[j] == i {
            return true;
        }
        j = j + 1;
    }
    false
}

/// Notes that the pair of `key` has come up in word `i`.
pub fn note(fresh: &mut KeyMap<Vec<usize>>, key: u64, i: usize)
    ensures
        fresh_view(final(fresh).entries()) == note_position(fresh_view(old(fresh).entries()), key, i),
{
    proof {
        lemma_fresh_view_slot(fresh.entries(), key);
        lemma_slot_of(fresh.entries(), key);
    }
    let ghost before = fresh.entries();
    match fresh.find(key) {
        Some(s) => {
            let mut list = fresh.swap_at(s, Vec::new());
            if !holds(&list, i) {
                list.push(i);
            }
            fresh.set_at(s, list);
            proof {
                assert(fresh_view(fresh.entries()) =~= note_position(fresh_view(before), key, i));
            }
        },
        None => {
            let mut list: Vec<usize> = Vec::new();
            list.push(i);
            fresh.insert(key, list);
            proof {
                assert(list@ =~= seq![i]);
                assert(fresh_view(fresh.entries()) =~= note_position(fresh_view(before), key, i));
            }
        },
    }
}

/// Counts the pair `(a, b)` in word `i`.
fn tally_window(
    counts: &mut HashMap<u64, i64>,
    fresh: &mut KeyMap<Vec<usize>>,
    a: u32,
    b: u32,
    i: usize,
    count: i64,
) -> (ok: bool)
    ensures
        match count_window(
            Tally { counts: old(counts)@, fresh: fresh_view(old(fresh).entries()) },
            a,
            b,
            i,
            count,
        ) {
            Some(t) => ok && t == (Tally {
                counts: final(counts)@,
                fresh: fresh_view(final(fresh).entries()),
            }),
            None => !ok,
        },
{
    let key = key_of((a, b));
    let before = match counts.get(&key) {
        Some(v) => *v,
        None => 0,
    };
    match before.checked_add(count) {
        None => false,
        Some(v) => {
            counts.insert(key, v);
            note(fresh, key, i);
            true
        },
    }
}

/// Counts the pairs of the words: for each pair how often it occurs, each
/// occurrence in a word counted as often as the word occurs, and in which
/// words it stands.
pub fn count_pairs(words: &Vec<Word>, counts: &Vec<i64>) -> (r: Option<(HashMap<u64, i64>, KeyMap<Vec<usize>>)>)
    requires
        words@.len() == counts@.len(),
    ensures
        match r {
            Some((pair_counts, fresh)) => count_words(
                Tally { counts: Map::empty(), fresh: Seq::empty() },
                crate::alphabet::words_view(words@),
                counts@,
                words@.len() as int,
            ) == Some(Tally { counts: pair_counts@, fresh: fresh_view(fresh.entries()) }),
            None => count_words(
                Tally { counts: Map::empty(), fresh: Seq::empty() },
                crate::alphabet::words_view(words@),
                counts@,
                words@.len() as int,
            ) is None,
        },
{
    let mut pair_counts: HashMap<u64, i64> = HashMap::new();
    let mut fresh: KeyMap<Vec<usize>> = KeyMap::new();
    let ghost start = Tally { counts: Map::empty(), fresh: Seq::empty() };
    let ghost ws = crate::alphabet::words_view(words@);
    let n = words.len();
    let mut i: usize = 0;
    proof {
        assert(fresh_view(fresh.entries()) =~= Seq::<(u64, Seq<usize>)>::empty());
    }
    while i < n
        invariant
            i <= n,
            n == words@.len(),
            n == counts@.len(),
            ws == crate::alphabet::words_view(words@),
            ws.len() == n,
            start == (Tally { counts: Map::empty(), fresh: Seq::empty() }),
            count_words(start, ws, counts@, i as int) == Some(
                Tally { counts: pair_counts@, fresh: fresh_view(fresh.entries()) },
            ),
        decreases n - i,
    {
        let chars = words[i].get_chars();
        let m = chars.len();
        let ghost base = Tally { counts: pair_counts@, fresh: fresh_view(fresh.entries()) };
        let mut j: usize = 0;
        while m > 0 && j < m - 1
            invariant
                ws.len() == n,
                n == words@.len(),
                ws == crate::alphabet::words_view(words@),
                start == (Tally { counts: Map::empty(), fresh: Seq::empty() }),
                count_words(start, ws, counts@, i as int) == Some(base),
                m == chars@.len(),
                m == ws[i as int].len(),
                m > 0 ==> j <= m - 1,
                m == 0 ==> j == 0,
                i < n,
                n == counts@.len(),
                chars@ == crate::word::chars_of(ws[i as int]),
                count_word(base, ws[i as int], i, counts@[i as int], j as int) == Some(
                    Tally { counts: pair_counts@, fresh: fresh_view(fresh.entries()) },
                ),
            decreases m - j,
        {
            assert(chars@[j as int] == ws[i as int][j as int].c);
            assert(chars@[j + 1] == ws[i as int][j + 1].c);
            if !tally_window(&mut pair_counts, &mut fresh, chars[j], chars[j + 1], i, counts[i]) {
                proof {
                    assert(count_word(base, ws[i as int], i, counts@[i as int], j + 1) is None);
                    lemma_count_word_stays_none(base, ws[i as int], i, counts@[i as int], j + 1);
                    assert(count_words(start, ws, counts@, i + 1) is None);
                    lemma_count_words_stays_none(start, ws, counts@, i + 1);
                }
                return None;
            }
            j = j + 1;
        }
        proof {
            if m == 0 {
                assert(count_word(base, ws[i as int], i, counts@[i as int], -1) == Some(base));
            }
        }
        i = i + 1;
    }
    Some((pair_counts, fresh))
}

/// Once a count has failed to fit, counting stays failed.
pub proof fn lemma_count_word_stays_none(t: Tally, word: Seq<Symbol>, i: usize, count: i64, n: int)
    requires
        0 <= n <= word.len() - 1,
        count_word(t, word, i, count, n) is None,
    ensures
        count_word(t, word, i, count, word.len() - 1) is None,
    decreases word.len() - n,
{
    if n < word.len() - 1 {
        lemma_count_word_stays_none(t, word, i, count, n + 1);
    }
}

/// Once a count has failed to fit, counting stays failed.
pub proof fn lemma_count_words_stays_none(t: Tally, words: Seq<Seq<Symbol>>, counts: Seq<i64>, n: int)
    requires
        0 <= n <= words.len(),
        count_words(t, words, counts, n) is None,
    ensures
        count_words(t, words, counts, words.len() as int) is None,
    decreases words.len() - n,
{
    if n < words.len() {
        lemma_count_words_stays_none(t, words, counts, n + 1);
    }
}

/// The queue of candidate pairs as mathematical values: the count under
/// which each pair waits, and the words that it came with.
pub struct Queued {
    pub counts: Map<u64, i64>,
    pub places: Map<u64, Seq<usize>>,
}

/// The queue after a pair has been put in with a count and the words in
/// which it stands. A pair that waits already takes the new count and keeps
/// its words.
pub open spec fn enqueued(q: Queued, key: u64, count: i64, places: Seq<usize>) -> Queued {
    if q.counts.contains_key(key) {
        Queued { counts: q.counts.insert(key, count), places: q.places }
    } else {
        Queued { counts: q.counts.insert(key, count), places: q.places.insert(key, places) }
    }
}

/// The queue after a waiting pair has been given a new count; a pair that
/// does not wait is not put in.
pub open spec fn recounted(q: Queued, key: u64, count: i64) -> Queued {
    if q.counts.contains_key(key) {
        Queued { counts: q.counts.insert(key, count), places: q.places }
    } else {
        q
    }
}

/// Whether the pair of `key` leaves the queue next: none waits with a
/// greater count, and of those with the same count none has a lesser key.
pub open spec fn is_top(counts: Map<u64, i64>, key: u64) -> bool {
    &&& counts.contains_key(key)
    &&& forall|j: u64| #[trigger]
        counts.contains_key(j) ==> counts[j] < counts[key] || (counts[j] == counts[key] && key
            <= j)
}

/// The key of the pair that leaves the queue next.
pub open spec fn top_key(counts: Map<u64, i64>) -> u64 {
    choose|k: u64| is_top(counts, k)
}

/// Only one pair can leave the queue next.
pub proof fn lemma_top_unique(counts: Map<u64, i64>, a: u64, b: u64)
    requires
        is_top(counts, a),
        is_top(counts, b),
    ensures
        a == b,
{
}

/// The queue after the first `n` fresh pairs have been put in, each with its
/// count, if that is at least `floor`.
pub open spec fn enqueue_fresh(q: Queued, fresh: Fresh, counts: Counts, floor: i64, n: int) -> Queued
    decreases n,
{
    if n <= 0 {
        q
    } else {
        let before = enqueue_fresh(q, fresh, counts, floor, n - 1);
        let (key, places) = fresh[n - 1];
        if count_of(counts, key) >= floor {
            enqueued(before, key, count_of(counts, key), places)
        } else {
            before
        }
    }
}

/// The places of a map as mathematical values.
pub open spec fn places_view(m: Map<u64, Vec<usize>>) -> Map<u64, Seq<usize>> {
    Map::new(|k: u64| m.contains_key(k), |k: u64| m[k]@)
}

/// The counts under which the items of a queue wait.
pub open spec fn waiting_counts(contents: Map<u64, Priority>) -> Map<u64, i64> {
    Map::new(|k: u64| contents.contains_key(k), |k: u64| contents[k].0)
}

/// The queue of candidate pairs.
pub struct PairQueue {
    heap: PriorityQueue<u64, Priority>,
    places: HashMap<u64, Vec<usize>>,
}

impl PairQueue {
    /// The pairs that wait, with their counts and their words.
    pub closed spec fn view(&self) -> Queued {
        Queued {
            counts: waiting_counts(queue_contents(self.heap)),
            places: places_view(self.places@),
        }
    }

    /// Each pair waits with its key, inverted, as tie-breaker, and finitely
    /// many wait.
    pub closed spec fn wf(&self) -> bool {
        &&& forall|k: u64| #[trigger]
            queue_contents(self.heap).contains_key(k) ==> queue_contents(self.heap)[k].1
                == u64::MAX - k
        &&& queue_contents(self.heap).dom().finite()
    }

    /// How many pairs wait.
    pub open spec fn size(&self) -> nat {
        self@.counts.dom().len()
    }

    /// Finitely many pairs wait.
    pub proof fn lemma_finite(&self)
        requires
            self.wf(),
        ensures
            self@.counts.dom().finite(),
    {
        assert(self@.counts.dom() =~= queue_contents(self.heap).dom());
    }

    /// A queue in which nothing waits.
    pub fn new() -> (q: Self)
        ensures
            q.wf(),
            q@.counts == Map::<u64, i64>::empty(),
            q@.places == Map::<u64, Seq<usize>>::empty(),
    {
        let q = PairQueue { heap: queue_new(), places: HashMap::new() };
        proof {
            assert(q@.counts =~= Map::<u64, i64>::empty());
            assert(q@.places =~= Map::<u64, Seq<usize>>::empty());
        }
        q
    }

    /// Whether nothing waits.
    pub fn is_empty(&self) -> (r: bool)
        requires
            self.wf(),
        ensures
            r == (self@.counts == Map::<u64, i64>::empty()),
            r == (self.size() == 0),
    {
        let r = queue_is_empty(&self.heap);
        proof {
            if r {
                assert(self@.counts =~= Map::<u64, i64>::empty());
            } else {
                if self@.counts =~= Map::<u64, i64>::empty() {
                    assert forall|k: u64| !queue_contents(self.heap).contains_key(k) by {
                        assert(!self@.counts.contains_key(k));
                    }
                    assert(queue_contents(self.heap) =~= Map::<u64, Priority>::empty());
                }
                if self.size() == 0 {
                    assert(self@.counts.dom() =~= queue_contents(self.heap).dom());
                    assert(queue_contents(self.heap).dom() =~= Set::<u64>::empty());
                    assert(queue_contents(self.heap) =~= Map::<u64, Priority>::empty());
                }
            }
        }
        r
    }

    /// Puts a pair into the queue.
    pub fn enqueue(&mut self, key: u64, count: i64, places: Vec<usize>)
        requires
            old(self).wf(),
        ensures
            final(self).wf(),
            final(self)@ == enqueued(old(self)@, key, count, places@),
    {
        let ghost before = queue_contents(self.heap);
        let ghost places_before = places_view(self.places@);
        let was = queue_push(&mut self.heap, key, (count, u64::MAX - key));
        if was.is_none() {
            self.places.insert(key, places);
            proof {
                assert(places_view(self.places@) =~= places_before.insert(key, places@));
            }
        }
        proof {
            assert(waiting_counts(queue_contents(self.heap)) =~= waiting_counts(before).insert(
                key,
                count,
            ));
        }
    }

    /// Gives a waiting pair a new count.
    pub fn recount(&mut self, key: u64, count: i64)
        requires
            old(self).wf(),
        ensures
            final(self).wf(),
            final(self)@ == recounted(old(self)@, key, count),
    {
        let ghost before = queue_contents(self.heap);
        let _ = queue_change_priority(&mut self.heap, key, (count, u64::MAX - key));
        proof {
            if before.contains_key(key) {
                assert(waiting_counts(queue_contents(self.heap)) =~= waiting_counts(before).insert(
                    key,
                    count,
                ));
            }
        }
    }

    /// Takes out the pair that leaves the queue next: its key, its count and
    /// the words that it came with.
    pub fn pop(&mut self) -> (r: Option<(u64, i64, Vec<usize>)>)
        requires
            old(self).wf(),
        ensures
            final(self).wf(),
            match r {
                Some((key, count, places)) => {
                    &&& is_top(old(self)@.counts, key)
                    &&& key == top_key(old(self)@.counts)
                    &&& count == old(self)@.counts[key]
                    &&& places@ == (if old(self)@.places.contains_key(key) {
                        old(self)@.places[key]
                    } else {
                        Seq::empty()
                    })
                    &&& final(self)@.counts == old(self)@.counts.remove(key)
                    &&& final(self)@.places == old(self)@.places.remove(key)
                    &&& final(self).size() == old(self).size() - 1
                },
                None => old(self)@.counts == Map::<u64, i64>::empty() && final(self)@ == old(self)@,
            },
    {
        let ghost before = queue_contents(self.heap);
        let ghost places_before = places_view(self.places@);
        match queue_pop(&mut self.heap) {
            Some((key, priority)) => {
                let places = match self.places.remove(&key) {
                    Some(p) => p,
                    None => Vec::new(),
                };
                proof {
                    let counts = waiting_counts(before);
                    assert forall|j: u64| #[trigger] counts.contains_key(j) implies counts[j]
                        < counts[key] || (counts[j] == counts[key] && key <= j) by {
                        assert(before.contains_key(j));
                        assert(priority_le(before[j], priority));
                    }
                    assert(is_top(counts, key));
                    lemma_top_unique(counts, key, top_key(counts));
                    assert(waiting_counts(queue_contents(self.heap)) =~= counts.remove(key));
                    assert(places_view(self.places@) =~= places_before.remove(key));
                    before.lemma_remove_key_len(key);
                    assert(counts.dom() =~= before.dom());
                    assert(counts.remove(key).dom() =~= before.remove(key).dom());
                }
                Some((key, priority.0, places))
            },
            None => {
                proof {
                    assert(waiting_counts(before) =~= Map::<u64, i64>::empty());
                }
                None
            },
        }
    }
}

} // verus!
