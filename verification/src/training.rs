//! One round of training: the pair that waits with the greatest count is
//! merged in every word in which it stands, its parents are retracted if the
//! merge has taken most of their occurrences, and the counts and the queue
//! follow.

use crate::alphabet::words_view;
use crate::keymap::KeyMap;
use crate::naming::{id_of, is_named, lemma_named, named, Names, Naming};
use crate::pairs::{
    count_of, fresh_view, is_top, note, note_position, recounted, top_key, Counts, Fresh,
    PairQueue, Queued,
};
use crate::pruning::{
    expansion, is_in_use, lemma_expansion, parents_grounded, reaches, share_reaches, split, Ratio,
};
use crate::tables::{key_of, pair_key};
use crate::text::chars_of_str;
use crate::word::{
    adjacent_lens_fit, merge_changes, merged_symbols, remove_changes_from, removed_symbols,
    split_is_valid, Change, Pair, Symbol, Word,
};
use std::collections::HashMap;
use vstd::prelude::*;

verus! {

broadcast use vstd::std_specs::hash::group_hash_axioms;

/// A change of a pair's count, with the word in which it happened.
pub type Tagged = (Change, usize);

/// The changes of one word, each with the index of the word.
pub open spec fn tagged(changes: Seq<Change>, i: usize) -> Seq<Tagged> {
    Seq::new(changes.len(), |j: int| (changes[j], i))
}

/// The words and the changes collected while an event is applied to the
/// corpus.
pub struct Worked {
    pub words: Seq<Seq<Symbol>>,
    pub changes: Seq<Tagged>,
}

/// The corpus after the pair has been merged in word `i`. `None` if two
/// lengths of the word do not fit together. An index that is no word changes
/// nothing.
pub open spec fn merge_place(w: Worked, i: usize, pair: Pair, new_id: u32, max_length: usize) -> Option<
    Worked,
> {
    if i >= w.words.len() {
        Some(w)
    } else if !adjacent_lens_fit(w.words[i as int]) {
        None
    } else {
        Some(
            Worked {
                words: w.words.update(
                    i as int,
                    merged_symbols(w.words[i as int], pair.0, pair.1, new_id),
                ),
                changes: w.changes + tagged(
                    merge_changes(w.words[i as int], pair.0, pair.1, new_id, max_length),
                    i,
                ),
            },
        )
    }
}

/// The corpus after the pair has been merged in the first `n` of `places`.
pub open spec fn merge_places(
    w: Worked,
    places: Seq<usize>,
    n: int,
    pair: Pair,
    new_id: u32,
    max_length: usize,
) -> Option<Worked>
    decreases n,
{
    if n <= 0 {
        Some(w)
    } else {
        match merge_places(w, places, n - 1, pair, new_id, max_length) {
            None => None,
            Some(u) => merge_place(u, places[n - 1], pair, new_id, max_length),
        }
    }
}

/// The corpus after the token `id` has been replaced by `pieces` in word
/// `i`. `None` if the word could grow beyond what a word can hold.
pub open spec fn remove_place(w: Worked, i: int, id: u32, pieces: Seq<usize>, max_length: usize) -> Option<
    Worked,
> {
    if w.words[i].len() * pieces.len() > isize::MAX {
        None
    } else {
        Some(
            Worked {
                words: w.words.update(i, removed_symbols(0, w.words[i], id, pieces)),
                changes: w.changes + tagged(
                    remove_changes_from(0, None, w.words[i], id, pieces, max_length),
                    i as usize,
                ),
            },
        )
    }
}

/// The corpus after the token `id` has been replaced by `pieces` in the
/// first `n` words.
pub open spec fn remove_places(
    w: Worked,
    n: int,
    id: u32,
    pieces: Seq<usize>,
    max_length: usize,
) -> Option<Worked>
    decreases n,
{
    if n <= 0 {
        Some(w)
    } else {
        match remove_places(w, n - 1, id, pieces, max_length) {
            None => None,
            Some(u) => remove_place(u, n - 1, id, pieces, max_length),
        }
    }
}

/// A word with a token replaced by `k` pieces has at most `k` times as many
/// symbols.
pub proof fn lemma_removed_len(base: int, s: Seq<Symbol>, id: u32, pieces: Seq<usize>)
    requires
        pieces.len() >= 1,
    ensures
        removed_symbols(base, s, id, pieces).len() <= s.len() * pieces.len(),
    decreases s.len(),
{
    if s.len() > 0 {
        let k = pieces.len() as int;
        let rest = s.skip(1);
        if s[0].c == id {
            lemma_removed_len(base + k, rest, id, pieces);
        } else {
            lemma_removed_len(base + 1, rest, id, pieces);
        }
        assert(s.len() * k == rest.len() * k + k) by (nonlinear_arith)
            requires
                s.len() == rest.len() + 1,
        ;
    }
}

/// Takes the word at `i` out of the list and leaves an empty one.
fn take_word(words: &mut Vec<Word>, i: usize) -> (w: Word)
    requires
        i < old(words)@.len(),
    ensures
        w@ == old(words)@[i as int]@,
        final(words)@.len() == old(words)@.len(),
        forall|j: int| 0 <= j < old(words)@.len() && j != i ==> final(words)@[j] == old(words)@[j],
{
    words.push(Word::new());
    words.swap_remove(i)
}

/// Puts `w` in place of the word at `i`.
fn put_word(words: &mut Vec<Word>, i: usize, w: Word)
    requires
        i < old(words)@.len(),
    ensures
        final(words)@ == old(words)@.update(i as int, w),
{
    words.push(w);
    let _ = words.swap_remove(i);
    assert(words@ =~= old(words)@.update(i as int, w));
}

/// Appends the changes of word `i` to the collected ones.
fn collect(changes: &mut Vec<Tagged>, found: &Vec<Change>, i: usize)
    ensures
        final(changes)@ == old(changes)@ + tagged(found@, i),
{
    let mut j: usize = 0;
    assert(changes@ =~= old(changes)@ + tagged(found@, i).take(0));
    while j < found.len()
        invariant
            j <= found@.len(),
            changes@ == old(changes)@ + tagged(found@, i).take(j as int),
        decreases found@.len() - j,
    {
        changes.push((found[j], i));
        assert(changes@ =~= old(changes)@ + tagged(found@, i).take(j + 1));
        j = j + 1;
    }
    assert(tagged(found@, i).take(j as int) =~= tagged(found@, i));
}

/// Merges the pair in the words of `places` and collects the changes.
pub fn merge_in_places(
    words: &mut Vec<Word>,
    changes: &mut Vec<Tagged>,
    places: &Vec<usize>,
    pair: Pair,
    new_id: u32,
    max_length: usize,
) -> (ok: bool)
    ensures
        match merge_places(
            Worked { words: words_view(old(words)@), changes: old(changes)@ },
            places@,
            places@.len() as int,
            pair,
            new_id,
            max_length,
        ) {
            Some(w) => ok && w == (Worked { words: words_view(final(words)@), changes: final(changes)@ }),
            None => !ok,
        },
        final(words)@.len() == old(words)@.len(),
{
    let ghost start = Worked { words: words_view(words@), changes: changes@ };
    let mut k: usize = 0;
    while k < places.len()
        invariant
            k <= places@.len(),
            words@.len() == old(words)@.len(),
            start == (Worked { words: words_view(old(words)@), changes: old(changes)@ }),
            merge_places(start, places@, k as int, pair, new_id, max_length) == Some(
                Worked { words: words_view(words@), changes: changes@ },
            ),
        decreases places@.len() - k,
    {
        let i = places[k];
        if i < words.len() {
            let ghost before = words_view(words@);
            let mut w = take_word(words, i);
            if !w.adjacent_lens_fit() {
                proof {
                    assert(merge_places(start, places@, k + 1, pair, new_id, max_length) is None);
                    lemma_merge_places_stays_none(start, places@, k + 1, pair, new_id, max_length);
                }
                return false;
            }
            let found = w.merge(pair.0, pair.1, new_id, max_length);
            put_word(words, i, w);
            collect(changes, &found, i);
            proof {
                assert(words_view(words@) =~= before.update(i as int, w@));
            }
        }
        k = k + 1;
    }
    true
}

/// Once a merge has failed, the round stays failed.
pub proof fn lemma_merge_places_stays_none(
    w: Worked,
    places: Seq<usize>,
    n: int,
    pair: Pair,
    new_id: u32,
    max_length: usize,
)
    requires
        0 <= n <= places.len(),
        merge_places(w, places, n, pair, new_id, max_length) is None,
    ensures
        merge_places(w, places, places.len() as int, pair, new_id, max_length) is None,
    decreases places.len() - n,
{
    if n < places.len() {
        lemma_merge_places_stays_none(w, places, n + 1, pair, new_id, max_length);
    }
}

/// Replaces the token `id` by `pieces` in every word and collects the
/// changes.
pub fn remove_everywhere(
    words: &mut Vec<Word>,
    changes: &mut Vec<Tagged>,
    id: u32,
    pieces: &Vec<usize>,
    max_length: usize,
) -> (ok: bool)
    requires
        split_is_valid(id, pieces@),
    ensures
        match remove_places(
            Worked { words: words_view(old(words)@), changes: old(changes)@ },
            old(words)@.len() as int,
            id,
            pieces@,
            max_length,
        ) {
            Some(w) => ok && w == (Worked { words: words_view(final(words)@), changes: final(changes)@ }),
            None => !ok,
        },
        final(words)@.len() == old(words)@.len(),
{
    let ghost start = Worked { words: words_view(words@), changes: changes@ };
    let n = words.len();
    let k = pieces.len();
    let mut i: usize = 0;
    while i < n
        invariant
            i <= n,
            n == words@.len(),
            n == old(words)@.len(),
            k == pieces@.len(),
            split_is_valid(id, pieces@),
            start == (Worked { words: words_view(old(words)@), changes: old(changes)@ }),
            remove_places(start, i as int, id, pieces@, max_length) == Some(
                Worked { words: words_view(words@), changes: changes@ },
            ),
        decreases n - i,
    {
        let ghost before = words_view(words@);
        let mut w = take_word(words, i);
        let fits = match w.len().checked_mul(k) {
            Some(total) => total <= isize::MAX as usize,
            None => false,
        };
        if !fits {
            proof {
                assert(remove_places(start, i + 1, id, pieces@, max_length) is None);
                lemma_remove_places_stays_none(start, n as int, i + 1, id, pieces@, max_length);
            }
            return false;
        }
        proof {
            lemma_removed_len(0, w@, id, pieces@);
        }
        let found = w.remove(id, pieces, max_length);
        put_word(words, i, w);
        collect(changes, &found, i);
        proof {
            assert(words_view(words@) =~= before.update(i as int, w@));
        }
        i = i + 1;
    }
    true
}

/// Once a replacement has failed, the round stays failed.
pub proof fn lemma_remove_places_stays_none(
    w: Worked,
    len: int,
    n: int,
    id: u32,
    pieces: Seq<usize>,
    max_length: usize,
)
    requires
        0 <= n <= len,
        remove_places(w, n, id, pieces, max_length) is None,
    ensures
        remove_places(w, len, id, pieces, max_length) is None,
    decreases len - n,
{
    if n < len {
        lemma_remove_places_stays_none(w, len, n + 1, id, pieces, max_length);
    }
}

/// An event of training: a merge of a pair into a token, or a split of a
/// token into pieces. Its rank is its place in the log.
pub enum Happening {
    Merge { pair: Pair, new_id: u32 },
    Split { id: u32, pieces: Vec<usize> },
}

/// An event of training as a mathematical value.
pub enum HappeningView {
    Merge { pair: Pair, new_id: u32 },
    Split { id: u32, pieces: Seq<usize> },
}

impl View for Happening {
    type V = HappeningView;

    open spec fn view(&self) -> HappeningView {
        match *self {
            Happening::Merge { pair, new_id } => HappeningView::Merge { pair, new_id },
            Happening::Split { id, pieces } => HappeningView::Split { id, pieces: pieces@ },
        }
    }
}

/// The events of a log as mathematical values.
pub open spec fn log_view(log: Seq<Happening>) -> Seq<HappeningView> {
    Seq::new(log.len(), |i: int| log[i]@)
}

/// What a round of training reads of the trainer.
pub struct Settings {
    pub min_frequency: u64,
    pub vocab_size: usize,
    pub prefix: Option<Seq<char>>,
    pub max_length: usize,
    pub tau: Ratio,
}

/// What a round of training reads of the trainer.
pub struct Options {
    pub min_frequency: u64,
    pub vocab_size: usize,
    pub prefix: Option<String>,
    pub max_length: usize,
    pub tau: Ratio,
}

impl View for Options {
    type V = Settings;

    open spec fn view(&self) -> Settings {
        Settings {
            min_frequency: self.min_frequency,
            vocab_size: self.vocab_size,
            prefix: text_of(self.prefix),
            max_length: self.max_length,
            tau: self.tau,
        }
    }
}

/// The state of training as mathematical values.
pub struct TrainingView {
    /// The vocabulary so far.
    pub names: Names,
    /// How many tokens were there before the first merge.
    pub atomic: u32,
    /// For each merged token whether it is in use: 1 or 0.
    pub active: Seq<u8>,
    /// For each merged token the pair that it was first merged from.
    pub parents: Seq<Pair>,
    /// The corpus: its words, and how often each occurs.
    pub words: Seq<Seq<Symbol>>,
    pub counts: Seq<i64>,
    /// How often each pair occurs.
    pub pair_counts: Counts,
    /// The pairs that have newly come up in this round.
    pub fresh: Fresh,
    /// The pairs that wait to be merged.
    pub queue: Queued,
    /// For each merged token, how many of its occurrences are left.
    pub merged: Map<u32, i64>,
    /// The events so far.
    pub log: Seq<HappeningView>,
}

/// How much the events of a log have made the vocabulary grow: each merge
/// by one token, each split by one less.
pub open spec fn growth(log: Seq<HappeningView>) -> int
    decreases log.len(),
{
    if log.len() == 0 {
        0
    } else {
        growth(log.drop_last()) + (if log.last() is Merge {
            1int
        } else {
            -1int
        })
    }
}

/// How many merges a log holds.
pub open spec fn merges_in(log: Seq<HappeningView>) -> int
    decreases log.len(),
{
    if log.len() == 0 {
        0
    } else {
        merges_in(log.drop_last()) + (if log.last() is Merge {
            1int
        } else {
            0int
        })
    }
}

/// A log holds no more merges than events, and no more splits.
pub proof fn lemma_merges_in(log: Seq<HappeningView>)
    ensures
        0 <= merges_in(log) <= log.len(),
        0 <= merges_in(log) - growth(log) <= log.len(),
    decreases log.len(),
{
    if log.len() > 0 {
        lemma_merges_in(log.drop_last());
    }
}

/// Whether a token may be merged: it is atomic, or merged and not
/// retracted.
pub open spec fn is_live(id: u32, active: Seq<u8>, atomic: u32) -> bool {
    id < atomic || (id - atomic < active.len() && active[id - atomic] != 0)
}

/// Whether the pair that has left the queue is merged: its count is at least
/// one and at least the least frequency, and both its tokens may be merged.
pub open spec fn passes(t: TrainingView, pair: Pair, priority: i64, cfg: Settings) -> bool {
    &&& priority >= 1
    &&& cfg.min_frequency <= priority
    &&& is_live(pair.0, t.active, t.atomic)
    &&& is_live(pair.1, t.active, t.atomic)
}

/// Whether `text` begins with `prefix`.
pub open spec fn begins_with(text: Seq<char>, prefix: Seq<char>) -> bool {
    prefix.len() <= text.len() && text.take(prefix.len() as int) == prefix
}

/// `text` without the continuing prefix, if it begins with it.
pub open spec fn strip_prefix(text: Seq<char>, prefix: Option<Seq<char>>) -> Seq<char> {
    match prefix {
        Some(p) => if begins_with(text, p) {
            text.skip(p.len() as int)
        } else {
            text
        },
        None => text,
    }
}

/// The string of the token that a pair is merged into: the string of the
/// first, then that of the second without the continuing prefix.
pub open spec fn merged_text(names: Names, pair: Pair, prefix: Option<Seq<char>>) -> Seq<char> {
    names[pair.0 as int].0 + strip_prefix(names[pair.1 as int].0, prefix)
}

/// The occurrences left of a token after `delta` more have been counted for
/// it. `None` if the number does not fit.
pub open spec fn bumped(merged: Map<u32, i64>, id: u32, delta: i64) -> Option<Map<u32, i64>> {
    let before = if merged.contains_key(id) {
        merged[id]
    } else {
        0
    };
    match before.checked_add(delta) {
        Some(v) => Some(merged.insert(id, v)),
        None => None,
    }
}

/// The most events that a log can hold: a rank is a `u32`.
pub open spec fn log_limit() -> int {
    u32::MAX as int
}

/// The state after the pair has been adopted as a token, and the id of the
/// token. A string that is new is named, with the pair as its parents; one
/// that has a name is put back in use. The merge is logged, and the
/// occurrences of the pair are counted for the token. `None` if the log is
/// full, no id is left, or the count does not fit; and `None` if the string
/// is the name of an atomic token, which has no place among the merged
/// tokens: its place would be a number below zero.
pub open spec fn adopted(t: TrainingView, pair: Pair, pair_count: i64, prefix: Option<Seq<char>>) -> Option<
    (TrainingView, u32),
> {
    let text = merged_text(t.names, pair, prefix);
    if t.log.len() >= log_limit() {
        None
    } else if is_named(t.names, text) && id_of(t.names, text) < t.atomic {
        None
    } else {
        match named(t.names, text) {
            None => None,
            Some(names) => {
                let new_id = id_of(names, text);
                let (parents, active) = if !is_named(t.names, text) {
                    (t.parents.push(pair), t.active.push(1u8))
                } else if new_id >= t.atomic && new_id - t.atomic < t.active.len() {
                    (t.parents, t.active.update(new_id - t.atomic, 1u8))
                } else {
                    (t.parents, t.active)
                };
                match bumped(t.merged, new_id, pair_count) {
                    None => None,
                    Some(merged) => Some(
                        (
                            TrainingView {
                                names,
                                parents,
                                active,
                                merged,
                                log: t.log.push(HappeningView::Merge { pair, new_id }),
                                ..t
                            },
                            new_id,
                        ),
                    ),
                }
            },
        }
    }
}

/// The occurrences left after `priority` has been taken from each of the
/// first `n` pieces that has a count. `None` if a number does not fit.
pub open spec fn settled(merged: Map<u32, i64>, pieces: Seq<usize>, priority: i64, n: int) -> Option<
    Map<u32, i64>,
>
    decreases n,
{
    if n <= 0 {
        Some(merged)
    } else {
        match settled(merged, pieces, priority, n - 1) {
            None => None,
            Some(m) => {
                let id = pieces[n - 1] as u32;
                if m.contains_key(id) {
                    match m[id].checked_sub(priority) {
                        Some(v) => Some(m.insert(id, v)),
                        None => None,
                    }
                } else {
                    Some(m)
                }
            },
        }
    }
}

/// The state after the token `p` has been retracted: it is out of use, every
/// occurrence of it in the corpus is replaced by its expansion, the split is
/// logged, and the pieces give up the occurrences that the merge had taken.
/// `None` if the log is full, a word could grow too long, or a number does
/// not fit.
pub open spec fn retracted(
    t: TrainingView,
    changes: Seq<Tagged>,
    p: u32,
    priority: i64,
    cfg: Settings,
) -> Option<(TrainingView, Seq<Tagged>)> {
    if t.log.len() >= log_limit() {
        None
    } else {
        let active = t.active.update(p - t.atomic, 0u8);
        let pieces = expansion(p, t.parents, active, t.atomic);
        match remove_places(
            Worked { words: t.words, changes },
            t.words.len() as int,
            p,
            pieces,
            cfg.max_length,
        ) {
            None => None,
            Some(w) => match settled(t.merged, pieces, priority, pieces.len() as int) {
                None => None,
                Some(merged) => Some(
                    (
                        TrainingView {
                            active,
                            words: w.words,
                            merged,
                            log: t.log.push(HappeningView::Split { id: p, pieces }),
                            ..t
                        },
                        w.changes,
                    ),
                ),
            },
        }
    }
}

/// The state after a parent of the merged pair has been looked at. A parent
/// with a count of occurrences gives up those that the merge has taken; it
/// is retracted if it is a merged token and the share of the merge in the
/// occurrences that it had has reached the threshold.
pub open spec fn pruned(
    t: TrainingView,
    changes: Seq<Tagged>,
    p: u32,
    pair_count: i64,
    priority: i64,
    cfg: Settings,
) -> Option<(TrainingView, Seq<Tagged>)> {
    if !t.merged.contains_key(p) {
        Some((t, changes))
    } else {
        let had = t.merged[p];
        match had.checked_sub(pair_count) {
            None => None,
            Some(v) => {
                let u = TrainingView { merged: t.merged.insert(p, v), ..t };
                if share_reaches(priority, had, cfg.tau) && p >= t.atomic && p - t.atomic
                    < t.active.len() {
                    retracted(u, changes, p, priority, cfg)
                } else {
                    Some((u, changes))
                }
            },
        }
    }
}

/// The state after one change has been taken in: the count of the pair
/// changes by the count of the word, up or down; a pair that has come up is
/// noted with the word; and the pair, if it waits, waits with its new count.
/// `None` if a number does not fit. A change of an index that is no word
/// counts for nothing.
pub open spec fn change_taken(t: TrainingView, change: Tagged) -> Option<TrainingView> {
    let ((pair, sign), i) = change;
    let key = pair_key(pair);
    if i >= t.counts.len() {
        Some(t)
    } else {
        match (sign as i64).checked_mul(t.counts[i as int]) {
            None => None,
            Some(delta) => match count_of(t.pair_counts, key).checked_add(delta) {
                None => None,
                Some(v) => Some(
                    TrainingView {
                        pair_counts: t.pair_counts.insert(key, v),
                        fresh: if sign > 0 {
                            note_position(t.fresh, key, i)
                        } else {
                            t.fresh
                        },
                        queue: recounted(t.queue, key, v),
                        ..t
                    },
                ),
            },
        }
    }
}

/// The state after the first `n` changes have been taken in.
pub open spec fn changes_taken(t: TrainingView, changes: Seq<Tagged>, n: int) -> Option<TrainingView>
    decreases n,
{
    if n <= 0 {
        Some(t)
    } else {
        match changes_taken(t, changes, n - 1) {
            None => None,
            Some(u) => change_taken(u, changes[n - 1]),
        }
    }
}

/// The state after the pairs that have come up have been put into the
/// queue, each that has a count of at least `floor`.
pub open spec fn requeued(t: TrainingView, floor: i64) -> TrainingView {
    TrainingView {
        queue: crate::pairs::enqueue_fresh(
            t.queue,
            t.fresh,
            t.pair_counts,
            floor,
            t.fresh.len() as int,
        ),
        fresh: Seq::empty(),
        ..t
    }
}

/// The state after the pair `pair`, which has left the queue with the count
/// `priority` and the words `places`, has been merged.
pub open spec fn merged_round(
    t: TrainingView,
    pair: Pair,
    priority: i64,
    places: Seq<usize>,
    cfg: Settings,
) -> Option<TrainingView> {
    let pair_count = count_of(t.pair_counts, pair_key(pair));
    match adopted(t, pair, pair_count, cfg.prefix) {
        None => None,
        Some((t2, new_id)) => match merge_places(
            Worked { words: t2.words, changes: Seq::empty() },
            places,
            places.len() as int,
            pair,
            new_id,
            cfg.max_length,
        ) {
            None => None,
            Some(w) => match pruned(
                TrainingView { words: w.words, ..t2 },
                w.changes,
                pair.0,
                pair_count,
                priority,
                cfg,
            ) {
                None => None,
                Some((t3, changes3)) => match (if pair.1 != pair.0 {
                    pruned(t3, changes3, pair.1, pair_count, priority, cfg)
                } else {
                    Some((t3, changes3))
                }) {
                    None => None,
                    Some((t4, changes4)) => match changes_taken(t4, changes4, changes4.len() as int) {
                        None => None,
                        Some(t5) => Some(requeued(t5, 0)),
                    },
                },
            },
        }
    }
}

/// The places of a waiting pair, none if it has none.
pub open spec fn places_of(q: Queued, key: u64) -> Seq<usize> {
    if q.places.contains_key(key) {
        q.places[key]
    } else {
        Seq::empty()
    }
}

/// One round: the pair with the greatest count leaves the queue, of several
/// the one with the least key. It is merged if it passes; else nothing more
/// happens.
pub open spec fn round(t: TrainingView, cfg: Settings) -> Option<TrainingView> {
    let key = crate::pairs::top_key(t.queue.counts);
    let priority = t.queue.counts[key];
    let places = places_of(t.queue, key);
    let pair = crate::tables::key_pair(key);
    let left = TrainingView {
        queue: Queued { counts: t.queue.counts.remove(key), places: t.queue.places.remove(key) },
        ..t
    };
    if passes(left, pair, priority, cfg) {
        merged_round(left, pair, priority, places, cfg)
    } else {
        Some(left)
    }
}

/// The state of training.
pub struct Training {
    pub naming: Naming,
    pub atomic: u32,
    pub active: Vec<u8>,
    pub parents: Vec<Pair>,
    pub words: Vec<Word>,
    pub counts: Vec<i64>,
    pub pair_counts: HashMap<u64, i64>,
    pub fresh: KeyMap<Vec<usize>>,
    pub queue: PairQueue,
    pub merged: HashMap<u32, i64>,
    pub log: Vec<Happening>,
    /// How many merges and how many splits the log holds.
    pub n_merges: usize,
    pub n_splits: usize,
}

/// The text of an optional string.
pub open spec fn text_of(o: Option<String>) -> Option<Seq<char>> {
    match o {
        Some(s) => Some(s@),
        None => None,
    }
}

/// The string of `a`, then that of `b` without the prefix.
pub fn join_texts(a: &String, b: &String, prefix: &Option<String>) -> (r: String)
    ensures
        r@ == a@ + strip_prefix(b@, text_of(*prefix)),
{
    let tail = chars_of_str(b.as_str());
    let mut from: usize = 0;
    match prefix {
        Some(p) => {
            let head = chars_of_str(p.as_str());
            if head.len() <= tail.len() {
                let mut same = true;
                let mut i: usize = 0;
                proof {
                    assert(tail@.take(0) =~= head@.take(0));
                }
                while i < head.len()
                    invariant
                        i <= head@.len(),
                        head@.len() <= tail@.len(),
                        same == (tail@.take(i as int) == head@.take(i as int)),
                    decreases head@.len() - i,
                {
                    proof {
                        assert(tail@.take(i + 1).drop_last() =~= tail@.take(i as int));
                        assert(head@.take(i + 1).drop_last() =~= head@.take(i as int));
                        assert(tail@.take(i + 1).last() == tail@[i as int]);
                        assert(head@.take(i + 1).last() == head@[i as int]);
                        if tail@[i as int] == head@[i as int] && same {
                            assert(tail@.take(i + 1) =~= head@.take(i + 1));
                        }
                    }
                    if tail[i] != head[i] {
                        same = false;
                    }
                    i = i + 1;
                }
                proof {
                    assert(head@.take(i as int) =~= head@);
                }
                if same {
                    from = head.len();
                }
            }
        },
        None => {},
    }
    let mut r = a.clone();
    let mut j: usize = from;
    proof {
        assert(tail@.skip(from as int).take(0) =~= Seq::<char>::empty());
        assert(a@ + Seq::<char>::empty() =~= a@);
    }
    while j < tail.len()
        invariant
            from <= j <= tail@.len(),
            r@ == a@ + tail@.skip(from as int).take(j - from),
        decreases tail@.len() - j,
    {
        r.push(tail[j]);
        proof {
            assert(a@ + tail@.skip(from as int).take(j + 1 - from) =~= (a@ + tail@.skip(
                from as int,
            ).take(j - from)).push(tail@[j as int]));
        }
        j = j + 1;
    }
    proof {
        assert(tail@.skip(from as int).take(tail@.len() - from) =~= tail@.skip(from as int));
        assert(tail@.skip(0) =~= tail@);
    }
    r
}

/// A copy of a list of places.
pub fn copy_places(places: &Vec<usize>) -> (out: Vec<usize>)
    ensures
        out@ == places@,
{
    let mut out: Vec<usize> = Vec::new();
    let mut i: usize = 0;
    while i < places.len()
        invariant
            i <= places@.len(),
            out@ == places@.take(i as int),
        decreases places@.len() - i,
    {
        out.push(places[i]);
        assert(out@ =~= places@.take(i + 1));
        i = i + 1;
    }
    assert(places@.take(i as int) =~= places@);
    out
}

/// Takes `priority` from the count of each piece that has one.
fn settle(merged: &mut HashMap<u32, i64>, pieces: &Vec<usize>, priority: i64) -> (ok: bool)
    requires
        forall|j: int| 0 <= j < pieces@.len() ==> #[trigger] pieces@[j] <= u32::MAX,
    ensures
        match settled(old(merged)@, pieces@, priority, pieces@.len() as int) {
            Some(m) => ok && m == final(merged)@,
            None => !ok,
        },
{
    let mut j: usize = 0;
    while j < pieces.len()
        invariant
            j <= pieces@.len(),
            forall|k: int| 0 <= k < pieces@.len() ==> #[trigger] pieces@[k] <= u32::MAX,
            settled(old(merged)@, pieces@, priority, j as int) == Some(merged@),
        decreases pieces@.len() - j,
    {
        let id = pieces[j] as u32;
        let had = match merged.get(&id) {
            Some(v) => Some(*v),
            None => None,
        };
        match had {
            Some(v) => {
                match v.checked_sub(priority) {
                    Some(left) => {
                        merged.insert(id, left);
                    },
                    None => {
                        proof {
                            lemma_settled_stays_none(old(merged)@, pieces@, priority, j + 1);
                        }
                        return false;
                    },
                }
            },
            None => {},
        }
        j = j + 1;
    }
    true
}

/// Once a number has failed to fit, the settling stays failed.
pub proof fn lemma_settled_stays_none(merged: Map<u32, i64>, pieces: Seq<usize>, priority: i64, n: int)
    requires
        0 <= n <= pieces.len(),
        settled(merged, pieces, priority, n) is None,
    ensures
        settled(merged, pieces, priority, pieces.len() as int) is None,
    decreases pieces.len() - n,
{
    if n < pieces.len() {
        lemma_settled_stays_none(merged, pieces, priority, n + 1);
    }
}

/// Once a number has failed to fit, the changes stay untaken.
pub proof fn lemma_changes_taken_stays_none(t: TrainingView, changes: Seq<Tagged>, n: int)
    requires
        0 <= n <= changes.len(),
        changes_taken(t, changes, n) is None,
    ensures
        changes_taken(t, changes, changes.len() as int) is None,
    decreases changes.len() - n,
{
    if n < changes.len() {
        lemma_changes_taken_stays_none(t, changes, n + 1);
    }
}

impl Training {
    /// The state as mathematical values.
    pub open spec fn view(&self) -> TrainingView {
        TrainingView {
            names: self.naming@,
            atomic: self.atomic,
            active: self.active@,
            parents: self.parents@,
            words: words_view(self.words@),
            counts: self.counts@,
            pair_counts: self.pair_counts@,
            fresh: fresh_view(self.fresh.entries()),
            queue: self.queue@,
            merged: self.merged@,
            log: log_view(self.log@),
        }
    }

    /// The vocabulary holds the atomic tokens and one token for each pair
    /// of parents; the parents of a token were there before it; each word
    /// has a count; the log has room for ranks; and the counters count the
    /// log.
    pub open spec fn wf(&self) -> bool {
        &&& self.naming.wf()
        &&& self.naming@.len() == self.atomic + self.parents@.len()
        &&& self.active@.len() == self.parents@.len()
        &&& parents_grounded(self.parents@, self.atomic)
        &&& self.words@.len() == self.counts@.len()
        &&& self.log@.len() <= log_limit()
        &&& self.queue.wf()
        &&& self.n_merges == merges_in(log_view(self.log@))
        &&& self.n_merges - self.n_splits == growth(log_view(self.log@))
    }

    /// Whether a token may be merged.
    fn live(&self, id: u32) -> (r: bool)
        ensures
            r == is_live(id, self.active@, self.atomic),
    {
        if id < self.atomic {
            true
        } else {
            let k = (id - self.atomic) as usize;
            k < self.active.len() && self.active[k] != 0
        }
    }

    /// Adopts the pair as a token.
    fn adopt(&mut self, pair: Pair, pair_count: i64, prefix: &Option<String>) -> (r: Option<u32>)
        requires
            old(self).wf(),
            pair.0 < old(self).naming@.len(),
            pair.1 < old(self).naming@.len(),
        ensures
            match adopted(old(self)@, pair, pair_count, text_of(*prefix)) {
                Some((t, id)) => r == Some(id) && final(self)@ == t && final(self).wf() && id
                    < final(self).naming@.len(),
                None => r is None,
            },
    {
        if self.log.len() >= u32::MAX as usize {
            return None;
        }
        let ghost names0 = self.naming@;
        let text = join_texts(
            &self.naming.texts[pair.0 as usize],
            &self.naming.texts[pair.1 as usize],
            prefix,
        );
        assert(text@ == merged_text(names0, pair, text_of(*prefix)));
        let known = self.naming.get(text.as_str());
        let was_named = known.is_some();
        match known {
            Some(id) => {
                if id < self.atomic {
                    return None;
                }
            },
            None => {},
        }
        let ghost t = text@;
        proof {
            if named(names0, t) is Some {
                lemma_named(names0, t);
            }
        }
        let new_id = match self.naming.intern(text) {
            Ok(id) => id,
            Err(_) => {
                return None;
            },
        };
        if !was_named {
            self.parents.push(pair);
            self.active.push(1);
        } else if new_id >= self.atomic && ((new_id - self.atomic) as usize) < self.active.len() {
            self.active.set((new_id - self.atomic) as usize, 1);
        }
        let before = match self.merged.get(&new_id) {
            Some(v) => *v,
            None => 0,
        };
        match before.checked_add(pair_count) {
            Some(v) => {
                self.merged.insert(new_id, v);
            },
            None => {
                return None;
            },
        }
        let ghost log0 = log_view(self.log@);
        proof {
            lemma_merges_in(log0);
        }
        self.log.push(Happening::Merge { pair, new_id });
        self.n_merges = self.n_merges + 1;
        proof {
            let log1 = log_view(self.log@);
            assert(log1 =~= log0.push(HappeningView::Merge { pair, new_id }));
            assert(log1.drop_last() =~= log0);
            lemma_merges_in(log0);
        }
        Some(new_id)
    }

    /// Retracts the token `p`.
    fn retract(&mut self, changes: &mut Vec<Tagged>, p: u32, priority: i64, options: &Options) -> (ok:
        bool)
        requires
            old(self).wf(),
            p >= old(self).atomic,
            p - old(self).atomic < old(self).active@.len(),
        ensures
            match retracted(old(self)@, old(changes)@, p, priority, options@) {
                Some((t, c)) => ok && final(self)@ == t && final(changes)@ == c && final(self).wf(),
                None => !ok,
            },
    {
        if self.log.len() >= u32::MAX as usize {
            return false;
        }
        self.active.set((p - self.atomic) as usize, 0);
        let pieces = split(p, &self.parents, &self.active, self.atomic);
        proof {
            lemma_expansion(p, self.parents@, self.active@, self.atomic);
            assert forall|j: int| 0 <= j < pieces@.len() implies #[trigger] pieces@[j] != p by {
                let e = pieces@[j];
                assert(e <= u32::MAX && is_in_use(e as u32, self.active@, self.atomic));
            }
        }
        if !remove_everywhere(&mut self.words, changes, p, &pieces, options.max_length) {
            return false;
        }
        if !settle(&mut self.merged, &pieces, priority) {
            return false;
        }
        let ghost log0 = log_view(self.log@);
        let ghost ps = pieces@;
        proof {
            lemma_merges_in(log0);
        }
        self.log.push(Happening::Split { id: p, pieces });
        self.n_splits = self.n_splits + 1;
        proof {
            let log1 = log_view(self.log@);
            assert(log1 =~= log0.push(HappeningView::Split { id: p, pieces: ps }));
            assert(log1.drop_last() =~= log0);
            lemma_merges_in(log0);
        }
        true
    }

    /// Looks at a parent of the merged pair.
    fn prune(
        &mut self,
        changes: &mut Vec<Tagged>,
        p: u32,
        pair_count: i64,
        priority: i64,
        options: &Options,
    ) -> (ok: bool)
        requires
            old(self).wf(),
        ensures
            match pruned(old(self)@, old(changes)@, p, pair_count, priority, options@) {
                Some((t, c)) => ok && final(self)@ == t && final(changes)@ == c && final(self).wf(),
                None => !ok,
            },
    {
        let had = match self.merged.get(&p) {
            Some(v) => *v,
            None => {
                return true;
            },
        };
        match had.checked_sub(pair_count) {
            Some(v) => {
                self.merged.insert(p, v);
            },
            None => {
                return false;
            },
        }
        if reaches(priority, had, options.tau) && p >= self.atomic && ((p - self.atomic) as usize)
            < self.active.len() {
            self.retract(changes, p, priority, options)
        } else {
            true
        }
    }

    /// Takes in the changes of a round.
    fn take_changes(&mut self, changes: &Vec<Tagged>) -> (ok: bool)
        requires
            old(self).wf(),
        ensures
            match changes_taken(old(self)@, changes@, changes@.len() as int) {
                Some(t) => ok && final(self)@ == t && final(self).wf(),
                None => !ok,
            },
    {
        let mut n: usize = 0;
        while n < changes.len()
            invariant
                n <= changes@.len(),
                self.wf(),
                changes_taken(old(self)@, changes@, n as int) == Some(self@),
            decreases changes@.len() - n,
        {
            let ((pair, sign), i) = changes[n];
            if i < self.counts.len() {
                let key = key_of(pair);
                let delta = match (sign as i64).checked_mul(self.counts[i]) {
                    Some(d) => d,
                    None => {
                        proof {
                            lemma_changes_taken_stays_none(old(self)@, changes@, n + 1);
                        }
                        return false;
                    },
                };
                let before = match self.pair_counts.get(&key) {
                    Some(v) => *v,
                    None => 0,
                };
                let v = match before.checked_add(delta) {
                    Some(v) => v,
                    None => {
                        proof {
                            lemma_changes_taken_stays_none(old(self)@, changes@, n + 1);
                        }
                        return false;
                    },
                };
                self.pair_counts.insert(key, v);
                if sign > 0 {
                    note(&mut self.fresh, key, i);
                }
                self.queue.recount(key, v);
            }
            n = n + 1;
        }
        true
    }

    /// Puts the pairs that have come up into the queue, each that has a
    /// count of at least `floor`.
    pub fn requeue(&mut self, floor: i64)
        requires
            old(self).wf(),
        ensures
            final(self)@ == requeued(old(self)@, floor),
            final(self).wf(),
    {
        let n = self.fresh.len();
        let ghost start = self@;
        let mut j: usize = 0;
        while j < n
            invariant
                j <= n,
                n == self.fresh.entries().len(),
                self.wf(),
                self@ == (TrainingView {
                    queue: crate::pairs::enqueue_fresh(
                        start.queue,
                        start.fresh,
                        start.pair_counts,
                        floor,
                        j as int,
                    ),
                    ..start
                }),
            decreases n - j,
        {
            let (key, places) = self.fresh.entry(j);
            let count = match self.pair_counts.get(&key) {
                Some(v) => *v,
                None => 0,
            };
            if count >= floor {
                let copy = copy_places(places);
                self.queue.enqueue(key, count, copy);
            }
            j = j + 1;
        }
        self.fresh.clear();
        proof {
            assert(fresh_view(self.fresh.entries()) =~= Seq::<(u64, Seq<usize>)>::empty());
        }
    }

    /// Merges the pair that has left the queue.
    fn merge_round(&mut self, pair: Pair, priority: i64, places: &Vec<usize>, options: &Options) -> (ok:
        bool)
        requires
            old(self).wf(),
            pair.0 < old(self).naming@.len(),
            pair.1 < old(self).naming@.len(),
        ensures
            match merged_round(old(self)@, pair, priority, places@, options@) {
                Some(t) => ok && final(self)@ == t && final(self).wf(),
                None => !ok,
            },
    {
        let key = key_of(pair);
        let pair_count = match self.pair_counts.get(&key) {
            Some(v) => *v,
            None => 0,
        };
        let new_id = match self.adopt(pair, pair_count, &options.prefix) {
            Some(id) => id,
            None => {
                return false;
            },
        };
        let mut changes: Vec<Tagged> = Vec::new();
        if !merge_in_places(
            &mut self.words,
            &mut changes,
            places,
            pair,
            new_id,
            options.max_length,
        ) {
            return false;
        }
        if !self.prune(&mut changes, pair.0, pair_count, priority, options) {
            return false;
        }
        if pair.1 != pair.0 {
            if !self.prune(&mut changes, pair.1, pair_count, priority, options) {
                return false;
            }
        }
        if !self.take_changes(&changes) {
            return false;
        }
        self.requeue(0);
        true
    }

    /// One round of training.
    pub fn round(&mut self, options: &Options) -> (ok: bool)
        requires
            old(self).wf(),
            old(self)@.queue.counts != Map::<u64, i64>::empty(),
        ensures
            match round(old(self)@, options@) {
                Some(t) => ok && final(self)@ == t && final(self).wf(),
                None => !ok,
            },
            is_top(old(self)@.queue.counts, top_key(old(self)@.queue.counts)),
            old(self)@.queue.counts.dom().finite(),
    {
        proof {
            self.queue.lemma_finite();
        }
        let (key, priority, places) = match self.queue.pop() {
            Some(top) => top,
            None => {
                return true;
            },
        };
        let pair = crate::tables::pair_of(key);
        if priority >= 1 && options.min_frequency <= priority as u64 && self.live(pair.0)
            && self.live(pair.1) {
            self.merge_round(pair, priority, &places, options)
        } else {
            true
        }
    }
}

/// Taking in changes leaves the log as it is.
pub proof fn lemma_changes_taken_log(t: TrainingView, changes: Seq<Tagged>, n: int)
    ensures
        changes_taken(t, changes, n) matches Some(u) ==> u.log == t.log && u.names == t.names
            && u.atomic == t.atomic && u.active == t.active && u.parents == t.parents && u.words
            == t.words && u.counts == t.counts && u.merged == t.merged,
    decreases n,
{
    if n > 0 {
        lemma_changes_taken_log(t, changes, n - 1);
    }
}

/// Looking at a parent does not shorten the log, nor make it longer than a
/// log can be.
pub proof fn lemma_pruned_log(
    t: TrainingView,
    changes: Seq<Tagged>,
    p: u32,
    pair_count: i64,
    priority: i64,
    cfg: Settings,
)
    ensures
        pruned(t, changes, p, pair_count, priority, cfg) matches Some((u, c)) ==> t.log.len()
            <= u.log.len() <= t.log.len() + 1 && (t.log.len() <= log_limit() ==> u.log.len()
            <= log_limit()),
{
}

/// A round that merges a pair makes the log longer.
pub proof fn lemma_merged_round_log(
    t: TrainingView,
    pair: Pair,
    priority: i64,
    places: Seq<usize>,
    cfg: Settings,
)
    ensures
        merged_round(t, pair, priority, places, cfg) matches Some(u) ==> t.log.len() < u.log.len()
            <= t.log.len() + 3 && u.log.len() <= log_limit(),
{
    let pair_count = count_of(t.pair_counts, pair_key(pair));
    match adopted(t, pair, pair_count, cfg.prefix) {
        None => {},
        Some((t2, new_id)) => {
            match merge_places(
                Worked { words: t2.words, changes: Seq::empty() },
                places,
                places.len() as int,
                pair,
                new_id,
                cfg.max_length,
            ) {
                None => {},
                Some(w) => {
                    let t2w = TrainingView { words: w.words, ..t2 };
                    lemma_pruned_log(t2w, w.changes, pair.0, pair_count, priority, cfg);
                    match pruned(t2w, w.changes, pair.0, pair_count, priority, cfg) {
                        None => {},
                        Some((t3, changes3)) => {
                            lemma_pruned_log(t3, changes3, pair.1, pair_count, priority, cfg);
                            let next = if pair.1 != pair.0 {
                                pruned(t3, changes3, pair.1, pair_count, priority, cfg)
                            } else {
                                Some((t3, changes3))
                            };
                            match next {
                                None => {},
                                Some((t4, changes4)) => {
                                    lemma_changes_taken_log(t4, changes4, changes4.len() as int);
                                },
                            }
                        },
                    }
                },
            }
        },
    }
}

} // verus!
