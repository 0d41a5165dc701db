//! The trained tables: for each pair the merges recorded for it, and for each
//! token id the splits recorded for it, every entry with its rank in the
//! event log.

use crate::keymap::{lemma_slot_of, slot_of, KeyMap};
use crate::replay::{merges_within, splits_within};
use crate::word::Pair;
use std::collections::HashMap;
use vstd::prelude::*;
use vstd::std_specs::cmp::PartialEqSpecImpl;

verus! {

broadcast use vstd::std_specs::hash::group_hash_axioms;

/// The merges of one pair: `(rank, new_id)` entries.
pub type MergeEntries = Seq<(u32, u32)>;

/// The splits of one token: `(rank, pieces)` entries.
pub type SplitEntries = Seq<(u32, Seq<u32>)>;

/// The integer that stands for a pair as a key.
pub open spec fn pair_key(p: Pair) -> u64 {
    (p.0 * 0x1_0000_0000 + p.1) as u64
}

/// Different pairs have different keys.
pub proof fn lemma_pair_key_injective(p: Pair, q: Pair)
    ensures
        pair_key(p) == pair_key(q) <==> p == q,
{
}

/// The pair that a key stands for.
pub open spec fn key_pair(k: u64) -> Pair {
    ((k / 0x1_0000_0000) as u32, (k % 0x1_0000_0000) as u32)
}

/// Every key is the key of the pair that it stands for.
pub proof fn lemma_key_pair_inverse(k: u64)
    ensures
        pair_key(key_pair(k)) == k,
{
}

/// Every pair is the pair that its key stands for.
pub proof fn lemma_pair_key_inverse(p: Pair)
    ensures
        key_pair(pair_key(p)) == p,
{
}

/// The key of a pair.
pub fn key_of(p: Pair) -> (k: u64)
    ensures
        k == pair_key(p),
{
    (p.0 as u64) * 0x1_0000_0000u64 + (p.1 as u64)
}

/// The pair that a key stands for.
pub fn pair_of(k: u64) -> (p: Pair)
    ensures
        p == key_pair(k),
{
    ((k / 0x1_0000_0000u64) as u32, (k % 0x1_0000_0000u64) as u32)
}

/// The index of the entry of lowest rank among those with a rank above
/// `floor`; of several with that rank, the first.
pub open spec fn lowest_above(ranks: Seq<u32>, floor: int) -> Option<int>
    decreases ranks.len(),
{
    if ranks.len() == 0 {
        None
    } else {
        let head = lowest_above(ranks.drop_last(), floor);
        let r = ranks.last();
        if r > floor && (head is None || r < ranks[head->0]) {
            Some(ranks.len() - 1)
        } else {
            head
        }
    }
}

/// What `lowest_above` finds is an entry above the floor, and no entry above
/// the floor has a lower rank.
pub proof fn lemma_lowest_above(ranks: Seq<u32>, floor: int)
    ensures
        match lowest_above(ranks, floor) {
            Some(i) => 0 <= i < ranks.len() && ranks[i] > floor && forall|j: int|
                0 <= j < ranks.len() && #[trigger] ranks[j] > floor ==> ranks[i] <= ranks[j],
            None => forall|j: int| 0 <= j < ranks.len() ==> #[trigger] ranks[j] <= floor,
        },
    decreases ranks.len(),
{
    if ranks.len() > 0 {
        lemma_lowest_above(ranks.drop_last(), floor);
        assert forall|j: int| 0 <= j < ranks.len() - 1 implies #[trigger] ranks[j]
            == ranks.drop_last()[j] by {}
    }
}

/// The ranks of a list of merges.
pub open spec fn merge_ranks(entries: MergeEntries) -> Seq<u32> {
    Seq::new(entries.len(), |i: int| entries[i].0)
}

/// The ranks of a list of splits.
pub open spec fn split_ranks(entries: SplitEntries) -> Seq<u32> {
    Seq::new(entries.len(), |i: int| entries[i].0)
}

/// The merge of lowest rank above `floor` that the table holds for `pair`.
pub open spec fn merge_candidate(merges: Map<Pair, MergeEntries>, pair: Pair, floor: int) -> Option<
    (u32, u32),
> {
    if merges.contains_key(pair) {
        match lowest_above(merge_ranks(merges[pair]), floor) {
            Some(i) => Some(merges[pair][i]),
            None => None,
        }
    } else {
        None
    }
}

/// The split of lowest rank above `floor` that the table holds for `id`.
pub open spec fn split_candidate(splits: Map<u32, SplitEntries>, id: u32, floor: int) -> Option<
    (u32, Seq<u32>),
> {
    if splits.contains_key(id) {
        match lowest_above(split_ranks(splits[id]), floor) {
            Some(i) => Some(splits[id][i]),
            None => None,
        }
    } else {
        None
    }
}

/// Whether the table lists the merge `(rank, new_id)` for `pair`.
pub open spec fn merge_listed(merges: Map<Pair, MergeEntries>, pair: Pair, rank: u32, new_id: u32) -> bool {
    merges.contains_key(pair) && merges[pair].contains((rank, new_id))
}

/// Whether the table lists the split `(rank, pieces)` for `id`.
pub open spec fn split_listed(splits: Map<u32, SplitEntries>, id: u32, rank: u32, pieces: Seq<u32>) -> bool {
    splits.contains_key(id) && splits[id].contains((rank, pieces))
}

/// The entries of a split list as mathematical values.
pub open spec fn split_entries_view(v: Seq<(u32, Vec<u32>)>) -> SplitEntries {
    Seq::new(v.len(), |i: int| (v[i].0, v[i].1@))
}

/// The merge table: pair to its `(rank, new_id)` entries.
#[derive(Debug)]
pub struct MergeMap {
    map: KeyMap<Vec<(u32, u32)>>,
}

impl View for MergeMap {
    type V = Map<Pair, MergeEntries>;

    closed spec fn view(&self) -> Map<Pair, MergeEntries> {
        Map::new(
            |p: Pair| self.map@.contains_key(pair_key(p)),
            |p: Pair| self.map@[pair_key(p)]@,
        )
    }
}

impl MergeMap {
    /// A table that holds nothing: no pair has entries, and the list of
    /// its pairs is empty.
    pub fn new() -> (m: Self)
        ensures
            m@ == Map::<Pair, MergeEntries>::empty(),
            m.entries() == Seq::<(Pair, MergeEntries)>::empty(),
    {
        let m = MergeMap { map: KeyMap::new() };
        assert(m@ =~= Map::<Pair, MergeEntries>::empty());
        assert(m.entries() =~= Seq::<(Pair, MergeEntries)>::empty());
        m
    }

    /// The pairs with their entries, in the order in which the pairs first
    /// came.
    pub closed spec fn entries(&self) -> Seq<(Pair, MergeEntries)> {
        Seq::new(
            self.map.entries().len(),
            |i: int| (key_pair(self.map.entries()[i].0), self.map.entries()[i].1@),
        )
    }

    /// Each pair stands once among the entries, with what the table holds
    /// for it.
    pub fn entries_are_the_table(&self)
        ensures
            lists_table(self.entries(), self@),
    {
        self.map.keys_are_distinct();
        proof {
            let e = self.map.entries();
            assert forall|i: int| 0 <= i < self.entries().len() implies self@.contains_key(
                (#[trigger] self.entries()[i]).0,
            ) && self@[self.entries()[i].0] == self.entries()[i].1 by {
                lemma_key_pair_inverse(e[i].0);
                crate::keymap::lemma_slot_of_own(e, i);
            }
            assert forall|p: Pair| self@.contains_key(p) implies exists|i: int|
                0 <= i < self.entries().len() && (#[trigger] self.entries()[i]).0 == p by {
                lemma_slot_of(e, pair_key(p));
                let i = slot_of(e, pair_key(p))->0;
                lemma_pair_key_inverse(p);
                assert(self.entries()[i].0 == p);
            }
            assert forall|i: int, j: int| 0 <= i < j < self.entries().len() implies (
            #[trigger] self.entries()[i]).0 != (#[trigger] self.entries()[j]).0 by {
                lemma_key_pair_inverse(e[i].0);
                lemma_key_pair_inverse(e[j].0);
            }
        }
    }

    /// How many pairs have entries.
    pub fn len(&self) -> (n: usize)
        ensures
            n == self.entries().len(),
    {
        self.map.len()
    }

    /// The pair at `i` with its entries.
    pub fn entry(&self, i: usize) -> (r: (Pair, &Vec<(u32, u32)>))
        requires
            i < self.entries().len(),
        ensures
            r.0 == self.entries()[i as int].0,
            r.1@ == self.entries()[i as int].1,
    {
        let (k, v) = self.map.entry(i);
        (pair_of(k), v)
    }

    /// Sets the entries of `pair`.
    pub fn insert(&mut self, pair: Pair, entries: Vec<(u32, u32)>)
        ensures
            final(self)@ == old(self)@.insert(pair, entries@),
    {
        let ghost e = entries@;
        self.map.insert(key_of(pair), entries);
        proof {
            assert forall|p: Pair| pair_key(p) == pair_key(pair) implies p == pair by {
                lemma_pair_key_injective(p, pair);
            }
            assert(self@ =~= old(self)@.insert(pair, e));
        }
    }

    /// The entries of `pair`, if it has any.
    pub fn get(&self, pair: Pair) -> (r: Option<&Vec<(u32, u32)>>)
        ensures
            match r {
                Some(v) => self@.contains_key(pair) && v@ == self@[pair],
                None => !self@.contains_key(pair),
            },
    {
        let k = key_of(pair);
        self.map.get(k)
    }

    /// Appends `(rank, new_id)` to the entries of `pair`.
    pub fn push_entry(&mut self, pair: Pair, rank: u32, new_id: u32)
        ensures
            final(self)@ == old(self)@.insert(
                pair,
                (if old(self)@.contains_key(pair) {
                    old(self)@[pair]
                } else {
                    Seq::empty()
                }).push((rank, new_id)),
            ),
    {
        let k = key_of(pair);
        let mut entries: Vec<(u32, u32)> = match self.map.find(k) {
            Some(i) => {
                proof {
                    lemma_slot_of(self.map.entries(), k);
                }
                self.map.swap_at(i, Vec::new())
            },
            None => Vec::new(),
        };
        entries.push((rank, new_id));
        let ghost e = entries@;
        self.map.insert(k, entries);
        proof {
            assert forall|p: Pair| pair_key(p) == pair_key(pair) implies p == pair by {
                lemma_pair_key_injective(p, pair);
            }
            assert(self@ =~= old(self)@.insert(pair, e));
        }
    }

    /// The merge of lowest rank above `floor` for `pair`; with no floor, the
    /// merge of lowest rank.
    pub fn candidate(&self, pair: Pair, floor: Option<u32>) -> (r: Option<(u32, u32)>)
        ensures
            r == merge_candidate(
                self@,
                pair,
                match floor {
                    Some(f) => f as int,
                    None => -1,
                },
            ),
    {
        let ghost fl: int = match floor {
            Some(f) => f as int,
            None => -1,
        };
        match self.get(pair) {
            None => None,
            Some(v) => {
                let mut best: Option<usize> = None;
                let mut i: usize = 0;
                while i < v.len()
                    invariant
                        i <= v@.len(),
                        fl == (match floor {
                            Some(f) => f as int,
                            None => -1,
                        }),
                        match best {
                            Some(b) => lowest_above(merge_ranks(v@.take(i as int)), fl) == Some(
                                b as int,
                            ) && b < i,
                            None => lowest_above(merge_ranks(v@.take(i as int)), fl) is None,
                        },
                    decreases v@.len() - i,
                {
                    proof {
                        assert(merge_ranks(v@.take(i + 1)).drop_last() =~= merge_ranks(
                            v@.take(i as int),
                        ));
                        assert(merge_ranks(v@.take(i + 1)).last() == v@[i as int].0);
                        if best is Some {
                            assert(merge_ranks(v@.take(i + 1))[best->0 as int] == v@[best->0 as int].0);
                        }
                    }
                    let above = match floor {
                        Some(f) => v[i].0 > f,
                        None => true,
                    };
                    let better = match best {
                        Some(b) => v[i].0 < v[b].0,
                        None => true,
                    };
                    if above && better {
                        best = Some(i);
                    }
                    i = i + 1;
                }
                assert(v@.take(i as int) =~= v@);
                match best {
                    Some(b) => Some(v[b]),
                    None => None,
                }
            },
        }
    }

    /// A copy that holds the same.
    pub fn duplicate(&self) -> (r: Self)
        ensures
            r@ == self@,
    {
        let mut out = MergeMap::new();
        let n = self.len();
        let mut i: usize = 0;
        self.entries_are_the_table();
        let ghost all = self.entries();
        while i < n
            invariant
                i <= n,
                n == all.len(),
                all == self.entries(),
                out@ == table_of(all, i as int),
            decreases n - i,
        {
            let (pair, list) = self.entry(i);
            let mut copy: Vec<(u32, u32)> = Vec::new();
            let mut j: usize = 0;
            while j < list.len()
                invariant
                    j <= list@.len(),
                    copy@ == list@.take(j as int),
                decreases list@.len() - j,
            {
                copy.push(list[j]);
                assert(copy@ =~= list@.take(j + 1));
                j = j + 1;
            }
            assert(list@.take(j as int) =~= list@);
            out.insert(pair, copy);
            i = i + 1;
        }
        proof {
            lemma_table_of(all, self@);
        }
        out
    }

    /// Whether `(rank, new_id)` is listed for `pair`.
    pub fn lists(&self, pair: Pair, rank: u32, new_id: u32) -> (r: bool)
        ensures
            r == merge_listed(self@, pair, rank, new_id),
    {
        match self.get(pair) {
            None => false,
            Some(v) => {
                let mut i: usize = 0;
                while i < v.len()
                    invariant
                        i <= v@.len(),
                        self@.contains_key(pair),
                        v@ == self@[pair],
                        forall|j: int| 0 <= j < i ==> v@[j] != (rank, new_id),
                    decreases v@.len() - i,
                {
                    if v[i].0 == rank && v[i].1 == new_id {
                        assert(v@[i as int] == (rank, new_id));
                        return true;
                    }
                    i = i + 1;
                }
                false
            },
        }
    }
}

/// The table of the first `n` entries of a list.
pub open spec fn table_of<K, V>(entries: Seq<(K, V)>, n: int) -> Map<K, V>
    decreases n,
{
    if n <= 0 {
        Map::empty()
    } else {
        table_of(entries, n - 1).insert(entries[n - 1].0, entries[n - 1].1)
    }
}

/// The entries of a table stand for the table: each key stands once, with
/// what the table holds for it.
pub open spec fn lists_table<K, V>(entries: Seq<(K, V)>, table: Map<K, V>) -> bool {
    &&& forall|i: int|
        0 <= i < entries.len() ==> table.contains_key((#[trigger] entries[i]).0) && table[entries[i].0]
            == entries[i].1
    &&& forall|k: K|
        table.contains_key(k) ==> exists|i: int|
            0 <= i < entries.len() && (#[trigger] entries[i]).0 == k
    &&& forall|i: int, j: int|
        0 <= i < j < entries.len() ==> (#[trigger] entries[i]).0 != (#[trigger] entries[j]).0
}

/// What the table of the first `n` entries holds.
pub proof fn lemma_table_of_holds<K, V>(entries: Seq<(K, V)>, n: int)
    requires
        0 <= n <= entries.len(),
        forall|i: int, j: int|
            0 <= i < j < entries.len() ==> (#[trigger] entries[i]).0 != (#[trigger] entries[j]).0,
    ensures
        forall|i: int|
            0 <= i < n ==> table_of(entries, n).contains_key((#[trigger] entries[i]).0) && table_of(
                entries,
                n,
            )[entries[i].0] == entries[i].1,
        forall|k: K|
            table_of(entries, n).contains_key(k) ==> exists|i: int|
                0 <= i < n && (#[trigger] entries[i]).0 == k && table_of(entries, n)[k]
                    == entries[i].1,
    decreases n,
{
    if n > 0 {
        lemma_table_of_holds(entries, n - 1);
        let head = table_of(entries, n - 1);
        let all = table_of(entries, n);
        assert forall|i: int| 0 <= i < n implies all.contains_key((#[trigger] entries[i]).0) && all[entries[i].0]
            == entries[i].1 by {
            if i < n - 1 {
                assert(entries[i].0 != entries[n - 1].0);
            }
        }
        assert forall|k: K| all.contains_key(k) implies exists|i: int|
            0 <= i < n && (#[trigger] entries[i]).0 == k && all[k] == entries[i].1 by {
            if k == entries[n - 1].0 {
                assert(entries[n - 1].0 == k);
            } else {
                let i = choose|i: int|
                    0 <= i < n - 1 && (#[trigger] entries[i]).0 == k && head[k] == entries[i].1;
                assert(entries[i].0 == k);
            }
        }
    }
}

/// The table of all entries of a table is the table.
pub proof fn lemma_table_of<K, V>(entries: Seq<(K, V)>, table: Map<K, V>)
    requires
        lists_table(entries, table),
    ensures
        table_of(entries, entries.len() as int) == table,
{
    lemma_table_of_holds(entries, entries.len() as int);
    let t = table_of(entries, entries.len() as int);
    assert forall|k: K| #[trigger] t.dom().contains(k) == table.dom().contains(k) by {
        if table.contains_key(k) {
            let i = choose|i: int| 0 <= i < entries.len() && (#[trigger] entries[i]).0 == k;
            assert(t.contains_key(entries[i].0));
        }
    }
    assert forall|k: K| #[trigger] t.dom().contains(k) implies t[k] == table[k] by {
        let i = choose|i: int|
            0 <= i < entries.len() && (#[trigger] entries[i]).0 == k && t[k] == entries[i].1;
        assert(table[entries[i].0] == entries[i].1);
    }
    assert(t =~= table);
}

/// The split table: token id to its `(rank, pieces)` entries.
#[derive(Debug)]
pub struct SplitMap {
    map: KeyMap<Vec<(u32, Vec<u32>)>>,
}

impl View for SplitMap {
    type V = Map<u32, SplitEntries>;

    closed spec fn view(&self) -> Map<u32, SplitEntries> {
        Map::new(
            |id: u32| self.map@.contains_key(id as u64),
            |id: u32| split_entries_view(self.map@[id as u64]@),
        )
    }
}

/// Whether two id sequences are equal.
pub fn same_ids(a: &Vec<u32>, b: &Vec<u32>) -> (r: bool)
    ensures
        r == (a@ == b@),
{
    if a.len() != b.len() {
        return false;
    }
    let mut i: usize = 0;
    while i < a.len()
        invariant
            i <= a@.len(),
            a@.len() == b@.len(),
            forall|j: int| 0 <= j < i ==> a@[j] == b@[j],
        decreases a@.len() - i,
    {
        if a[i] != b[i] {
            return false;
        }
        i = i + 1;
    }
    assert(a@ =~= b@);
    true
}

impl SplitMap {
    /// A table that holds nothing: no token has entries, and the list of
    /// its tokens is empty.
    pub fn new() -> (m: Self)
        ensures
            m@ == Map::<u32, SplitEntries>::empty(),
            m.entries() == Seq::<(u32, SplitEntries)>::empty(),
    {
        let m = SplitMap { map: KeyMap::new() };
        assert(m@ =~= Map::<u32, SplitEntries>::empty());
        assert(m.entries() =~= Seq::<(u32, SplitEntries)>::empty());
        m
    }

    /// The tokens with their entries, in the order in which the tokens
    /// first came.
    pub closed spec fn entries(&self) -> Seq<(u32, SplitEntries)> {
        Seq::new(
            self.map.entries().len(),
            |i: int| (self.map.entries()[i].0 as u32, split_entries_view(self.map.entries()[i].1@)),
        )
    }

    /// Every key is a token id.
    #[verifier::type_invariant]
    closed spec fn wf(&self) -> bool {
        forall|i: int|
            0 <= i < self.map.entries().len() ==> (#[trigger] self.map.entries()[i]).0 <= u32::MAX
    }

    /// Each token stands once among the entries, with what the table holds
    /// for it.
    pub fn entries_are_the_table(&self)
        ensures
            lists_table(self.entries(), self@),
    {
        self.map.keys_are_distinct();
        proof {
            use_type_invariant(self);
            let e = self.map.entries();
            assert forall|i: int| 0 <= i < self.entries().len() implies self@.contains_key(
                (#[trigger] self.entries()[i]).0,
            ) && self@[self.entries()[i].0] == self.entries()[i].1 by {
                assert(e[i].0 <= u32::MAX);
                crate::keymap::lemma_slot_of_own(e, i);
            }
            assert forall|id: u32| self@.contains_key(id) implies exists|i: int|
                0 <= i < self.entries().len() && (#[trigger] self.entries()[i]).0 == id by {
                lemma_slot_of(e, id as u64);
                let i = slot_of(e, id as u64)->0;
                assert(self.entries()[i].0 == id);
            }
            assert forall|i: int, j: int| 0 <= i < j < self.entries().len() implies (
            #[trigger] self.entries()[i]).0 != (#[trigger] self.entries()[j]).0 by {
                assert(e[i].0 <= u32::MAX);
                assert(e[j].0 <= u32::MAX);
            }
        }
    }

    /// How many tokens have entries.
    pub fn len(&self) -> (n: usize)
        ensures
            n == self.entries().len(),
    {
        self.map.len()
    }

    /// The token at `i` with its entries.
    pub fn entry(&self, i: usize) -> (r: (u32, &Vec<(u32, Vec<u32>)>))
        requires
            i < self.entries().len(),
        ensures
            r.0 == self.entries()[i as int].0,
            split_entries_view(r.1@) == self.entries()[i as int].1,
    {
        let (k, v) = self.map.entry(i);
        (k as u32, v)
    }

    /// Sets the entries of `id`.
    pub fn insert(&mut self, id: u32, entries: Vec<(u32, Vec<u32>)>)
        ensures
            final(self)@ == old(self)@.insert(id, split_entries_view(entries@)),
    {
        let ghost e = split_entries_view(entries@);
        let ghost before = self.map.entries();
        proof {
            use_type_invariant(&*self);
            lemma_slot_of(before, id as u64);
        }
        let mut map: KeyMap<Vec<(u32, Vec<u32>)>> = KeyMap::new();
        std::mem::swap(&mut map, &mut self.map);
        map.insert(id as u64, entries);
        proof {
            let filled = map.entries();
            assert forall|i: int| 0 <= i < filled.len() implies (#[trigger] filled[i]).0
                <= u32::MAX by {
                if i < before.len() {
                    assert(filled[i].0 == before[i].0);
                }
            }
        }
        *self = SplitMap { map };
        assert(self@ =~= old(self)@.insert(id, e));
    }

    /// The entries of `id`, if it has any.
    pub fn get(&self, id: u32) -> (r: Option<&Vec<(u32, Vec<u32>)>>)
        ensures
            match r {
                Some(v) => self@.contains_key(id) && split_entries_view(v@) == self@[id],
                None => !self@.contains_key(id),
            },
    {
        self.map.get(id as u64)
    }

    /// Appends `(rank, pieces)` to the entries of `id`.
    pub fn push_entry(&mut self, id: u32, rank: u32, pieces: Vec<u32>)
        ensures
            final(self)@ == old(self)@.insert(
                id,
                (if old(self)@.contains_key(id) {
                    old(self)@[id]
                } else {
                    Seq::empty()
                }).push((rank, pieces@)),
            ),
    {
        let ghost slots = self.map.entries();
        proof {
            use_type_invariant(&*self);
            lemma_slot_of(slots, id as u64);
        }
        let mut map: KeyMap<Vec<(u32, Vec<u32>)>> = KeyMap::new();
        std::mem::swap(&mut map, &mut self.map);
        let mut entries: Vec<(u32, Vec<u32>)> = match map.find(id as u64) {
            Some(i) => map.swap_at(i, Vec::new()),
            None => Vec::new(),
        };
        let ghost emptied = map.entries();
        proof {
            assert forall|i: int| 0 <= i < emptied.len() implies (#[trigger] emptied[i]).0
                <= u32::MAX by {
                assert(emptied[i].0 == slots[i].0);
            }
            lemma_slot_of(emptied, id as u64);
        }
        let ghost before = split_entries_view(entries@);
        let ghost p = pieces@;
        proof {
            if old(self)@.contains_key(id) {
                assert(before == old(self)@[id]);
            } else {
                assert(before =~= Seq::<(u32, Seq<u32>)>::empty());
            }
        }
        entries.push((rank, pieces));
        let ghost e = split_entries_view(entries@);
        assert(e =~= before.push((rank, p)));
        map.insert(id as u64, entries);
        proof {
            let filled = map.entries();
            assert forall|i: int| 0 <= i < filled.len() implies (#[trigger] filled[i]).0
                <= u32::MAX by {
                if i < emptied.len() {
                    assert(filled[i].0 == emptied[i].0);
                }
            }
        }
        *self = SplitMap { map };
        assert(self@ =~= old(self)@.insert(id, e));
    }

    /// The split of lowest rank above `floor` for `id`.
    pub fn candidate(&self, id: u32, floor: u32) -> (r: Option<(u32, &Vec<u32>)>)
        ensures
            match r {
                Some((rank, pieces)) => split_candidate(self@, id, floor as int) == Some(
                    (rank, pieces@),
                ),
                None => split_candidate(self@, id, floor as int) is None,
            },
    {
        match self.get(id) {
            None => None,
            Some(v) => {
                let mut best: Option<usize> = None;
                let mut i: usize = 0;
                while i < v.len()
                    invariant
                        i <= v@.len(),
                        match best {
                            Some(b) => lowest_above(
                                split_ranks(split_entries_view(v@.take(i as int))),
                                floor as int,
                            ) == Some(b as int) && b < i,
                            None => lowest_above(
                                split_ranks(split_entries_view(v@.take(i as int))),
                                floor as int,
                            ) is None,
                        },
                    decreases v@.len() - i,
                {
                    proof {
                        let cur = split_ranks(split_entries_view(v@.take(i + 1)));
                        assert(cur.drop_last() =~= split_ranks(
                            split_entries_view(v@.take(i as int)),
                        ));
                        assert(cur.last() == v@[i as int].0);
                        if best is Some {
                            assert(cur[best->0 as int] == v@[best->0 as int].0);
                        }
                    }
                    let better = match best {
                        Some(b) => v[i].0 < v[b].0,
                        None => true,
                    };
                    if v[i].0 > floor && better {
                        best = Some(i);
                    }
                    i = i + 1;
                }
                assert(v@.take(i as int) =~= v@);
                match best {
                    Some(b) => {
                        assert(split_entries_view(v@)[b as int] == (v@[b as int].0, v@[b as int].1@));
                        Some((v[b].0, &v[b].1))
                    },
                    None => None,
                }
            },
        }
    }

    /// A copy that holds the same.
    pub fn duplicate(&self) -> (r: Self)
        ensures
            r@ == self@,
    {
        let mut out = SplitMap::new();
        let n = self.len();
        let mut i: usize = 0;
        self.entries_are_the_table();
        let ghost all = self.entries();
        while i < n
            invariant
                i <= n,
                n == all.len(),
                all == self.entries(),
                out@ == table_of(all, i as int),
            decreases n - i,
        {
            let (id, list) = self.entry(i);
            let mut copy: Vec<(u32, Vec<u32>)> = Vec::new();
            let mut j: usize = 0;
            while j < list.len()
                invariant
                    j <= list@.len(),
                    copy@.len() == j,
                    split_entries_view(copy@) == split_entries_view(list@).take(j as int),
                decreases list@.len() - j,
            {
                let ghost before = copy@;
                let mut ids: Vec<u32> = Vec::new();
                let mut k: usize = 0;
                while k < list[j].1.len()
                    invariant
                        j < list@.len(),
                        k <= list@[j as int].1@.len(),
                        ids@ == list@[j as int].1@.take(k as int),
                    decreases list@[j as int].1@.len() - k,
                {
                    ids.push(list[j].1[k]);
                    assert(ids@ =~= list@[j as int].1@.take(k + 1));
                    k = k + 1;
                }
                assert(list@[j as int].1@.take(k as int) =~= list@[j as int].1@);
                copy.push((list[j].0, ids));
                proof {
                    let now = split_entries_view(copy@);
                    let goal = split_entries_view(list@).take(j + 1);
                    assert forall|t: int| 0 <= t < now.len() implies now[t] == goal[t] by {
                        if t < j {
                            assert(copy@[t] == before[t]);
                            assert(split_entries_view(before)[t] == split_entries_view(list@).take(
                                j as int,
                            )[t]);
                        }
                    }
                    assert(now =~= goal);
                }
                j = j + 1;
            }
            assert(split_entries_view(list@).take(j as int) =~= split_entries_view(list@));
            out.insert(id, copy);
            i = i + 1;
        }
        proof {
            lemma_table_of(all, self@);
        }
        out
    }

    /// Whether `(rank, pieces)` is listed for `id`.
    pub fn lists(&self, id: u32, rank: u32, pieces: &Vec<u32>) -> (r: bool)
        ensures
            r == split_listed(self@, id, rank, pieces@),
    {
        match self.get(id) {
            None => false,
            Some(v) => {
                let mut i: usize = 0;
                while i < v.len()
                    invariant
                        i <= v@.len(),
                        self@.contains_key(id),
                        split_entries_view(v@) == self@[id],
                        forall|j: int| 0 <= j < i ==> split_entries_view(v@)[j] != (rank, pieces@),
                    decreases v@.len() - i,
                {
                    if v[i].0 == rank && same_ids(&v[i].1, pieces) {
                        assert(split_entries_view(v@)[i as int] == (rank, pieces@));
                        return true;
                    }
                    i = i + 1;
                }
                false
            },
        }
    }
}

/// Whether two lists of merges are equal.
pub fn same_merges(a: &Vec<(u32, u32)>, b: &Vec<(u32, u32)>) -> (r: bool)
    ensures
        r == (a@ == b@),
{
    if a.len() != b.len() {
        return false;
    }
    let mut i: usize = 0;
    while i < a.len()
        invariant
            i <= a@.len(),
            a@.len() == b@.len(),
            forall|j: int| 0 <= j < i ==> a@[j] == b@[j],
        decreases a@.len() - i,
    {
        if a[i].0 != b[i].0 || a[i].1 != b[i].1 {
            return false;
        }
        i = i + 1;
    }
    assert(a@ =~= b@);
    true
}

/// Whether two lists of splits are equal.
pub fn same_splits(a: &Vec<(u32, Vec<u32>)>, b: &Vec<(u32, Vec<u32>)>) -> (r: bool)
    ensures
        r == (split_entries_view(a@) == split_entries_view(b@)),
{
    if a.len() != b.len() {
        assert(split_entries_view(a@).len() != split_entries_view(b@).len());
        return false;
    }
    let mut i: usize = 0;
    while i < a.len()
        invariant
            i <= a@.len(),
            a@.len() == b@.len(),
            forall|j: int| 0 <= j < i ==> split_entries_view(a@)[j] == split_entries_view(b@)[j],
        decreases a@.len() - i,
    {
        if a[i].0 != b[i].0 || !same_ids(&a[i].1, &b[i].1) {
            assert(split_entries_view(a@)[i as int] != split_entries_view(b@)[i as int]);
            return false;
        }
        i = i + 1;
    }
    assert(split_entries_view(a@) =~= split_entries_view(b@));
    true
}

impl MergeMap {
    /// Whether `other` holds for every pair of this table what this table
    /// holds.
    pub fn is_within(&self, other: &Self) -> (r: bool)
        ensures
            r == (forall|p: Pair| #[trigger]
                self@.contains_key(p) ==> other@.contains_key(p) && other@[p] == self@[p]),
    {
        let n = self.len();
        let mut i: usize = 0;
        self.entries_are_the_table();
        while i < n
            invariant
                i <= n,
                n == self.entries().len(),
                lists_table(self.entries(), self@),
                forall|j: int|
                    0 <= j < i ==> other@.contains_key((#[trigger] self.entries()[j]).0) && other@[self.entries()[j].0]
                        == self.entries()[j].1,
            decreases n - i,
        {
            let (pair, list) = self.entry(i);
            let same = match other.get(pair) {
                Some(l) => same_merges(list, l),
                None => false,
            };
            if !same {
                assert(self@.contains_key(self.entries()[i as int].0));
                return false;
            }
            i = i + 1;
        }
        proof {
            assert forall|p: Pair| #[trigger] self@.contains_key(p) implies other@.contains_key(p)
                && other@[p] == self@[p] by {
                let j = choose|j: int|
                    0 <= j < self.entries().len() && (#[trigger] self.entries()[j]).0 == p;
                assert(self@[self.entries()[j].0] == self.entries()[j].1);
            }
        }
        true
    }
}

/// Two merge tables are equal if they hold the same for the same pairs.
impl PartialEq for MergeMap {
    /// Whether the two tables hold the same.
    fn eq(&self, other: &Self) -> (r: bool) {
        let r = self.is_within(other) && other.is_within(self);
        proof {
            if r {
                assert(self@ =~= other@);
            }
        }
        r
    }
}

impl PartialEqSpecImpl for MergeMap {
    open spec fn obeys_eq_spec() -> bool {
        true
    }

    open spec fn eq_spec(&self, other: &Self) -> bool {
        self@ == other@
    }
}

impl SplitMap {
    /// Whether `other` holds for every token of this table what this table
    /// holds.
    pub fn is_within(&self, other: &Self) -> (r: bool)
        ensures
            r == (forall|id: u32| #[trigger]
                self@.contains_key(id) ==> other@.contains_key(id) && other@[id] == self@[id]),
    {
        let n = self.len();
        let mut i: usize = 0;
        self.entries_are_the_table();
        while i < n
            invariant
                i <= n,
                n == self.entries().len(),
                lists_table(self.entries(), self@),
                forall|j: int|
                    0 <= j < i ==> other@.contains_key((#[trigger] self.entries()[j]).0) && other@[self.entries()[j].0]
                        == self.entries()[j].1,
            decreases n - i,
        {
            let (id, list) = self.entry(i);
            let same = match other.get(id) {
                Some(l) => same_splits(list, l),
                None => false,
            };
            if !same {
                assert(self@.contains_key(self.entries()[i as int].0));
                return false;
            }
            i = i + 1;
        }
        proof {
            assert forall|id: u32| #[trigger] self@.contains_key(id) implies other@.contains_key(id)
                && other@[id] == self@[id] by {
                let j = choose|j: int|
                    0 <= j < self.entries().len() && (#[trigger] self.entries()[j]).0 == id;
                assert(self@[self.entries()[j].0] == self.entries()[j].1);
            }
        }
        true
    }
}

/// Two split tables are equal if they hold the same for the same tokens.
impl PartialEq for SplitMap {
    /// Whether the two tables hold the same.
    fn eq(&self, other: &Self) -> (r: bool) {
        let r = self.is_within(other) && other.is_within(self);
        proof {
            if r {
                assert(self@ =~= other@);
            }
        }
        r
    }
}

impl PartialEqSpecImpl for SplitMap {
    open spec fn obeys_eq_spec() -> bool {
        true
    }

    open spec fn eq_spec(&self, other: &Self) -> bool {
        self@ == other@
    }
}

impl MergeMap {
    /// Whether every token that a merge of the table produces has a string
    /// in `strings`.
    pub fn resolves(&self, strings: &HashMap<u32, String>) -> (r: bool)
        ensures
            r == merges_within(self@, strings@.dom()),
    {
        let n = self.len();
        let mut i: usize = 0;
        self.entries_are_the_table();
        while i < n
            invariant
                i <= n,
                n == self.entries().len(),
                lists_table(self.entries(), self@),
                forall|a: int, b: int|
                    0 <= a < i && 0 <= b < self.entries()[a].1.len() ==> strings@.contains_key(
                        (#[trigger] self.entries()[a].1[b]).1,
                    ),
            decreases n - i,
        {
            let (pair, list) = self.entry(i);
            let mut j: usize = 0;
            while j < list.len()
                invariant
                    j <= list@.len(),
                    i < n,
                    n == self.entries().len(),
                    lists_table(self.entries(), self@),
                    pair == self.entries()[i as int].0,
                    list@ == self.entries()[i as int].1,
                    forall|b: int| 0 <= b < j ==> strings@.contains_key((#[trigger] list@[b]).1),
                decreases list@.len() - j,
            {
                if !strings.contains_key(&list[j].1) {
                    proof {
                        assert(self@.contains_key(self.entries()[i as int].0));
                        assert(self@[pair] == list@);
                        assert(!strings@.dom().contains(self@[pair][j as int].1));
                    }
                    return false;
                }
                j = j + 1;
            }
            i = i + 1;
        }
        proof {
            assert forall|pair: Pair, b: int|
                self@.contains_key(pair) && 0 <= b < self@[pair].len() implies strings@.dom().contains(
                (#[trigger] self@[pair][b]).1,
            ) by {
                let a = choose|a: int|
                    0 <= a < self.entries().len() && (#[trigger] self.entries()[a]).0 == pair;
                assert(self@[self.entries()[a].0] == self.entries()[a].1);
                assert(strings@.contains_key(self.entries()[a].1[b].1));
            }
        }
        true
    }
}

impl SplitMap {
    /// Whether every piece of a split of the table has a string in
    /// `strings`.
    pub fn resolves(&self, strings: &HashMap<u32, String>) -> (r: bool)
        ensures
            r == splits_within(self@, strings@.dom()),
    {
        let n = self.len();
        let mut i: usize = 0;
        self.entries_are_the_table();
        while i < n
            invariant
                i <= n,
                n == self.entries().len(),
                lists_table(self.entries(), self@),
                forall|a: int, b: int, c: int|
                    0 <= a < i && 0 <= b < self.entries()[a].1.len() && 0 <= c
                        < self.entries()[a].1[b].1.len() ==> strings@.contains_key(
                        #[trigger] self.entries()[a].1[b].1[c],
                    ),
            decreases n - i,
        {
            let (id, list) = self.entry(i);
            let mut j: usize = 0;
            while j < list.len()
                invariant
                    j <= list@.len(),
                    i < n,
                    n == self.entries().len(),
                    lists_table(self.entries(), self@),
                    id == self.entries()[i as int].0,
                    split_entries_view(list@) == self.entries()[i as int].1,
                    forall|b: int, c: int|
                        0 <= b < j && 0 <= c < list@[b].1@.len() ==> strings@.contains_key(
                            #[trigger] list@[b].1@[c],
                        ),
                decreases list@.len() - j,
            {
                let pieces = &list[j].1;
                let mut k: usize = 0;
                while k < pieces.len()
                    invariant
                        k <= pieces@.len(),
                        j < list@.len(),
                        i < n,
                        n == self.entries().len(),
                        lists_table(self.entries(), self@),
                        id == self.entries()[i as int].0,
                        split_entries_view(list@) == self.entries()[i as int].1,
                        pieces@ == list@[j as int].1@,
                        forall|c: int| 0 <= c < k ==> strings@.contains_key(#[trigger] pieces@[c]),
                    decreases pieces@.len() - k,
                {
                    if !strings.contains_key(&pieces[k]) {
                        proof {
                            assert(self@.contains_key(self.entries()[i as int].0));
                            assert(self@[id] == split_entries_view(list@));
                            assert(self@[id][j as int].1 == pieces@);
                            assert(!strings@.dom().contains(self@[id][j as int].1[k as int]));
                        }
                        return false;
                    }
                    k = k + 1;
                }
                j = j + 1;
            }
            proof {
                assert forall|b: int, c: int|
                    0 <= b < self.entries()[i as int].1.len() && 0 <= c
                        < self.entries()[i as int].1[b].1.len() implies strings@.contains_key(
                    #[trigger] self.entries()[i as int].1[b].1[c],
                ) by {
                    assert(split_entries_view(list@)[b].1 == list@[b].1@);
                    assert(strings@.contains_key(list@[b].1@[c]));
                }
            }
            i = i + 1;
        }
        proof {
            assert forall|id: u32, b: int, c: int|
                self@.contains_key(id) && 0 <= b < self@[id].len() && 0 <= c
                    < self@[id][b].1.len() implies strings@.dom().contains(
                #[trigger] self@[id][b].1[c],
            ) by {
                let a = choose|a: int|
                    0 <= a < self.entries().len() && (#[trigger] self.entries()[a]).0 == id;
                assert(self@[self.entries()[a].0] == self.entries()[a].1);
                assert(strings@.contains_key(self.entries()[a].1[b].1[c]));
            }
        }
        true
    }
}

} // verus!
