//! What training keeps true from round to round: every symbol of the corpus
//! is a token in use, and every event of the log draws on tokens that are in
//! use at its rank.

use crate::alphabet::{char_weights, code_points, named_all, spell_upto, spell_words, with_alphabet};
use crate::naming::{id_of, is_named, lemma_named, named, names_wf, Names};
use crate::pairs::{count_of, Queued};
use crate::pruning::{expansion, is_in_use, lemma_expansion, parents_grounded};
use crate::replay::ids_within;
use crate::strmap::lemma_position_of;
use crate::tables::pair_key;
use crate::trainer::{goes_on, lemma_round_measure, rounds, started, Plan};
use crate::training::{
    adopted, is_live, lemma_changes_taken_log, log_limit, merge_places, merged_round,
    merged_text, passes, places_of, pruned, remove_places, retracted, round, HappeningView,
    Settings, Tagged, TrainingView, Worked,
};
use crate::word::{
    chain_of, merged_symbols, removed_symbols, split_pieces, starts_with_pair, Pair, Symbol,
};
use vstd::prelude::*;

verus! {

/// The tokens that may stand in the corpus: the atomic ones, and the merged
/// ones that are not retracted.
pub open spec fn live_ids(active: Seq<u8>, atomic: u32) -> Set<u32> {
    Set::new(|id: u32| is_live(id, active, atomic))
}

/// Every symbol of every word is a token in use.
pub open spec fn corpus_is_live(words: Seq<Seq<Symbol>>, active: Seq<u8>, atomic: u32) -> bool {
    forall|w: int|
        0 <= w < words.len() ==> ids_within(#[trigger] words[w], live_ids(active, atomic))
}

/// Whether a token is in use after the first `n` events of a log: an atomic
/// token always; a merged one if the last event that names it as the token
/// of a merge or of a split is a merge.
pub open spec fn in_use_after(log: Seq<HappeningView>, n: int, id: u32, atomic: u32) -> bool
    decreases n,
{
    if id < atomic {
        true
    } else if n <= 0 {
        false
    } else {
        match log[n - 1] {
            HappeningView::Merge { new_id, .. } => new_id == id || in_use_after(
                log,
                n - 1,
                id,
                atomic,
            ),
            HappeningView::Split { id: subject, .. } => subject != id && in_use_after(
                log,
                n - 1,
                id,
                atomic,
            ),
        }
    }
}

/// Whether the event at rank `r` draws on tokens that are in use at its
/// rank: a merge on its two parents, and its token is no atomic one; a split
/// on its token, which is a merged one, and on pieces that are in use once
/// the token is not.
pub open spec fn event_is_sound(log: Seq<HappeningView>, r: int, atomic: u32) -> bool {
    match log[r] {
        HappeningView::Merge { pair, new_id } => new_id >= atomic && in_use_after(
            log,
            r,
            pair.0,
            atomic,
        ) && in_use_after(log, r, pair.1, atomic),
        HappeningView::Split { id, pieces } => id >= atomic && in_use_after(log, r, id, atomic)
            && forall|j: int|
            0 <= j < pieces.len() ==> #[trigger] pieces[j] <= u32::MAX && in_use_after(
                log,
                r + 1,
                pieces[j] as u32,
                atomic,
            ),
    }
}

/// Every event of the log draws on tokens that are in use at its rank.
pub open spec fn log_is_sound(log: Seq<HappeningView>, atomic: u32) -> bool {
    forall|r: int| 0 <= r < log.len() ==> #[trigger] event_is_sound(log, r, atomic)
}

/// The flags say of each merged token what the log says.
pub open spec fn flags_follow_log(t: TrainingView) -> bool {
    &&& forall|k: int| 0 <= k < t.active.len() ==> #[trigger] t.active[k] <= 1
    &&& forall|id: u32|
        id >= t.atomic ==> (#[trigger] in_use_after(t.log, t.log.len() as int, id, t.atomic) <==> id
            - t.atomic < t.active.len() && t.active[id - t.atomic] != 0)
}

/// What training keeps true of its state.
pub open spec fn is_sound(t: TrainingView) -> bool {
    &&& names_wf(t.names)
    &&& t.names.len() == t.atomic + t.parents.len()
    &&& t.active.len() == t.parents.len()
    &&& parents_grounded(t.parents, t.atomic)
    &&& corpus_is_live(t.words, t.active, t.atomic)
    &&& log_is_sound(t.log, t.atomic)
    &&& flags_follow_log(t)
}

/// What a log says of a rank does not change when the log grows.
pub proof fn lemma_in_use_prefix(log: Seq<HappeningView>, more: Seq<HappeningView>, n: int, id: u32, atomic: u32)
    requires
        0 <= n <= log.len(),
    ensures
        in_use_after(log + more, n, id, atomic) == in_use_after(log, n, id, atomic),
    decreases n,
{
    if n > 0 && id >= atomic {
        lemma_in_use_prefix(log, more, n - 1, id, atomic);
        assert((log + more)[n - 1] == log[n - 1]);
    }
}

/// A sound log stays sound when a sound event joins it.
pub proof fn lemma_log_grows(log: Seq<HappeningView>, e: HappeningView, atomic: u32)
    requires
        log_is_sound(log, atomic),
        event_is_sound(log.push(e), log.len() as int, atomic),
    ensures
        log_is_sound(log.push(e), atomic),
{
    let more = seq![e];
    let all = log.push(e);
    assert(all =~= log + more);
    assert forall|r: int| 0 <= r < all.len() implies #[trigger] event_is_sound(all, r, atomic) by {
        if r < log.len() {
            assert(event_is_sound(log, r, atomic));
            assert(all[r] == log[r]);
            match log[r] {
                HappeningView::Merge { pair, new_id } => {
                    lemma_in_use_prefix(log, more, r, pair.0, atomic);
                    lemma_in_use_prefix(log, more, r, pair.1, atomic);
                },
                HappeningView::Split { id, pieces } => {
                    lemma_in_use_prefix(log, more, r, id, atomic);
                    assert forall|j: int| 0 <= j < pieces.len() implies #[trigger] pieces[j]
                        <= u32::MAX && in_use_after(all, r + 1, pieces[j] as u32, atomic) by {
                        lemma_in_use_prefix(log, more, r + 1, pieces[j] as u32, atomic);
                    }
                },
            }
        }
    }
}

/// A merge puts only tokens into a word that were there or the new one.
pub proof fn lemma_merged_within(s: Seq<Symbol>, c1: u32, c2: u32, replacement: u32, allowed: Set<u32>)
    requires
        ids_within(s, allowed),
        allowed.contains(replacement),
    ensures
        ids_within(merged_symbols(s, c1, c2, replacement), allowed),
    decreases s.len(),
{
    if s.len() > 0 {
        let rest = if starts_with_pair(s, c1, c2) {
            s.skip(2)
        } else {
            s.skip(1)
        };
        assert forall|i: int| 0 <= i < rest.len() implies allowed.contains((#[trigger] rest[i]).c) by {
            if starts_with_pair(s, c1, c2) {
                assert(rest[i] == s[i + 2]);
            } else {
                assert(rest[i] == s[i + 1]);
            }
        }
        lemma_merged_within(rest, c1, c2, replacement, allowed);
        let tail = merged_symbols(rest, c1, c2, replacement);
        let all = merged_symbols(s, c1, c2, replacement);
        assert forall|i: int| 0 <= i < all.len() implies allowed.contains((#[trigger] all[i]).c) by {
            if i > 0 {
                assert(all[i] == tail[i - 1]);
            } else {
                assert(allowed.contains(s[0].c));
            }
        }
    }
}

/// A replacement leaves in a word only tokens that were there and are not
/// the replaced one, and the pieces.
pub proof fn lemma_removed_within(
    base: int,
    s: Seq<Symbol>,
    removed: u32,
    pieces: Seq<usize>,
    allowed: Set<u32>,
)
    requires
        forall|i: int| 0 <= i < s.len() && (#[trigger] s[i]).c != removed ==> allowed.contains(s[i].c),
        forall|j: int| 0 <= j < pieces.len() ==> allowed.contains(#[trigger] pieces[j] as u32),
    ensures
        ids_within(removed_symbols(base, s, removed, pieces), allowed),
    decreases s.len(),
{
    if s.len() > 0 {
        let rest = s.skip(1);
        assert forall|i: int| 0 <= i < rest.len() && (#[trigger] rest[i]).c != removed implies allowed.contains(
            rest[i].c,
        ) by {
            assert(rest[i] == s[i + 1]);
        }
        let all = removed_symbols(base, s, removed, pieces);
        if s[0].c == removed {
            lemma_removed_within(base + pieces.len(), rest, removed, pieces, allowed);
            let head = split_pieces(s[0], pieces, base);
            let tail = removed_symbols(base + pieces.len(), rest, removed, pieces);
            assert forall|i: int| 0 <= i < all.len() implies allowed.contains((#[trigger] all[i]).c) by {
                if i < head.len() {
                    assert(all[i] == head[i]);
                    assert(allowed.contains(pieces[i] as u32));
                } else {
                    assert(all[i] == tail[i - head.len()]);
                }
            }
        } else {
            lemma_removed_within(base + 1, rest, removed, pieces, allowed);
            let tail = removed_symbols(base + 1, rest, removed, pieces);
            assert forall|i: int| 0 <= i < all.len() implies allowed.contains((#[trigger] all[i]).c) by {
                if i > 0 {
                    assert(all[i] == tail[i - 1]);
                } else {
                    assert(s[0].c != removed);
                }
            }
        }
    }
}

/// Merging in places keeps the corpus in use where the new token is in use.
pub proof fn lemma_merge_places_live(
    w: Worked,
    places: Seq<usize>,
    n: int,
    pair: Pair,
    new_id: u32,
    max_length: usize,
    allowed: Set<u32>,
)
    requires
        forall|i: int| 0 <= i < w.words.len() ==> ids_within(#[trigger] w.words[i], allowed),
        allowed.contains(new_id),
    ensures
        merge_places(w, places, n, pair, new_id, max_length) matches Some(u) ==> u.words.len()
            == w.words.len() && forall|i: int|
            0 <= i < u.words.len() ==> ids_within(#[trigger] u.words[i], allowed),
    decreases n,
{
    if n > 0 {
        lemma_merge_places_live(w, places, n - 1, pair, new_id, max_length, allowed);
        match merge_places(w, places, n - 1, pair, new_id, max_length) {
            Some(v) => {
                let i = places[n - 1];
                if i < v.words.len() {
                    lemma_merged_within(v.words[i as int], pair.0, pair.1, new_id, allowed);
                }
            },
            None => {},
        }
    }
}

/// Replacing a token everywhere leaves the corpus with tokens that are
/// allowed, where the pieces are and every other token of the corpus is.
pub proof fn lemma_remove_places_live(
    w: Worked,
    n: int,
    id: u32,
    pieces: Seq<usize>,
    max_length: usize,
    allowed: Set<u32>,
)
    requires
        0 <= n <= w.words.len(),
        forall|i: int, k: int|
            0 <= i < w.words.len() && 0 <= k < w.words[i].len() && (#[trigger] w.words[i][k]).c != id
                ==> allowed.contains(w.words[i][k].c),
        forall|j: int| 0 <= j < pieces.len() ==> allowed.contains(#[trigger] pieces[j] as u32),
    ensures
        remove_places(w, n, id, pieces, max_length) matches Some(u) ==> u.words.len()
            == w.words.len() && (forall|i: int|
            0 <= i < n ==> ids_within(#[trigger] u.words[i], allowed)) && (forall|i: int|
            n <= i < u.words.len() ==> #[trigger] u.words[i] == w.words[i]),
    decreases n,
{
    if n > 0 {
        lemma_remove_places_live(w, n - 1, id, pieces, max_length, allowed);
        match remove_places(w, n - 1, id, pieces, max_length) {
            Some(v) => {
                assert(v.words[n - 1] == w.words[n - 1]);
                assert forall|k: int| 0 <= k < v.words[n - 1].len() && (#[trigger] v.words[n - 1][k]).c
                    != id implies allowed.contains(v.words[n - 1][k].c) by {
                    assert(w.words[n - 1][k].c != id);
                }
                lemma_removed_within(0, v.words[n - 1], id, pieces, allowed);
            },
            None => {},
        }
    }
}

/// The state after a pair has been adopted is sound, and the new token is in
/// use.
pub proof fn lemma_adopted_sound(t: TrainingView, pair: Pair, pair_count: i64, prefix: Option<Seq<char>>)
    requires
        is_sound(t),
        is_live(pair.0, t.active, t.atomic),
        is_live(pair.1, t.active, t.atomic),
    ensures
        adopted(t, pair, pair_count, prefix) matches Some((u, new_id)) ==> is_sound(u) && is_live(
            new_id,
            u.active,
            u.atomic,
        ) && is_live(pair.0, u.active, u.atomic) && is_live(pair.1, u.active, u.atomic)
            && u.atomic == t.atomic && u.words == t.words,
{
    match adopted(t, pair, pair_count, prefix) {
        Some((u, new_id)) => {
            let text = merged_text(t.names, pair, prefix);
            lemma_named(t.names, text);
            lemma_position_of(t.names, text);
            lemma_position_of(u.names, text);
            let e = HappeningView::Merge { pair, new_id };
            assert(u.log == t.log.push(e));
            assert(u.log.drop_last() =~= t.log);
            let n = t.log.len() as int;
            lemma_in_use_prefix(t.log, seq![e], n, pair.0, t.atomic);
            lemma_in_use_prefix(t.log, seq![e], n, pair.1, t.atomic);
            assert(t.log.push(e) =~= t.log + seq![e]);
            assert(event_is_sound(u.log, n, t.atomic));
            lemma_log_grows(t.log, e, t.atomic);
            assert forall|id: u32| id >= u.atomic implies (#[trigger] in_use_after(
                u.log,
                u.log.len() as int,
                id,
                u.atomic,
            ) <==> id - u.atomic < u.active.len() && u.active[id - u.atomic] != 0) by {
                lemma_in_use_prefix(t.log, seq![e], n, id, t.atomic);
                assert(in_use_after(t.log, n, id, t.atomic) <==> id - t.atomic < t.active.len()
                    && t.active[id - t.atomic] != 0);
            }
            assert forall|w: int| 0 <= w < u.words.len() implies ids_within(
                #[trigger] u.words[w],
                live_ids(u.active, u.atomic),
            ) by {
                assert(ids_within(t.words[w], live_ids(t.active, t.atomic)));
                assert forall|k: int| 0 <= k < u.words[w].len() implies live_ids(
                    u.active,
                    u.atomic,
                ).contains((#[trigger] u.words[w][k]).c) by {
                    assert(live_ids(t.active, t.atomic).contains(t.words[w][k].c));
                }
            }
        },
        None => {},
    }
}

/// The state after a token has been retracted is sound.
pub proof fn lemma_retracted_sound(t: TrainingView, changes: Seq<Tagged>, p: u32, priority: i64, cfg: Settings)
    requires
        is_sound(t),
        p >= t.atomic,
        is_live(p, t.active, t.atomic),
    ensures
        retracted(t, changes, p, priority, cfg) matches Some((u, c)) ==> is_sound(u) && u.atomic
            == t.atomic && forall|id: u32|
            id != p && is_live(id, t.active, t.atomic) ==> #[trigger] is_live(id, u.active, u.atomic),
{
    match retracted(t, changes, p, priority, cfg) {
        Some((u, c)) => {
            let active = t.active.update(p - t.atomic, 0u8);
            let pieces = expansion(p, t.parents, active, t.atomic);
            lemma_expansion(p, t.parents, active, t.atomic);
            let allowed = live_ids(active, t.atomic);
            assert forall|j: int| 0 <= j < pieces.len() implies allowed.contains(
                #[trigger] pieces[j] as u32,
            ) by {
                let x = pieces[j];
                assert(x <= u32::MAX && is_in_use(x as u32, active, t.atomic));
            }
            let w0 = Worked { words: t.words, changes };
            assert forall|i: int, k: int|
                0 <= i < w0.words.len() && 0 <= k < w0.words[i].len() && (
                #[trigger] w0.words[i][k]).c != p implies allowed.contains(w0.words[i][k].c) by {
                assert(ids_within(t.words[i], live_ids(t.active, t.atomic)));
                assert(live_ids(t.active, t.atomic).contains(t.words[i][k].c));
            }
            lemma_remove_places_live(
                w0,
                t.words.len() as int,
                p,
                pieces,
                cfg.max_length,
                allowed,
            );
            let e = HappeningView::Split { id: p, pieces };
            let n = t.log.len() as int;
            assert(u.log == t.log.push(e));
            assert(t.log.push(e) =~= t.log + seq![e]);
            lemma_in_use_prefix(t.log, seq![e], n, p, t.atomic);
            assert forall|id: u32| id >= u.atomic implies (#[trigger] in_use_after(
                u.log,
                u.log.len() as int,
                id,
                u.atomic,
            ) <==> id - u.atomic < u.active.len() && u.active[id - u.atomic] != 0) by {
                lemma_in_use_prefix(t.log, seq![e], n, id, t.atomic);
                assert(in_use_after(t.log, n, id, t.atomic) <==> id - t.atomic < t.active.len()
                    && t.active[id - t.atomic] != 0);
            }
            assert forall|j: int| 0 <= j < pieces.len() implies #[trigger] pieces[j] <= u32::MAX
                && in_use_after(u.log, n + 1, pieces[j] as u32, t.atomic) by {
                let x = pieces[j];
                assert(x <= u32::MAX && is_in_use(x as u32, active, t.atomic));
                if x as u32 >= t.atomic {
                    assert(in_use_after(u.log, u.log.len() as int, x as u32, u.atomic));
                }
            }
            assert(event_is_sound(u.log, n, t.atomic));
            lemma_log_grows(t.log, e, t.atomic);
        },
        None => {},
    }
}

/// The state after a parent has been looked at is sound.
pub proof fn lemma_pruned_sound(
    t: TrainingView,
    changes: Seq<Tagged>,
    p: u32,
    pair_count: i64,
    priority: i64,
    cfg: Settings,
)
    requires
        is_sound(t),
        is_live(p, t.active, t.atomic),
    ensures
        pruned(t, changes, p, pair_count, priority, cfg) matches Some((u, c)) ==> is_sound(u)
            && u.atomic == t.atomic && forall|id: u32|
            id != p && is_live(id, t.active, t.atomic) ==> #[trigger] is_live(id, u.active, u.atomic),
{
    if t.merged.contains_key(p) {
        match t.merged[p].checked_sub(pair_count) {
            Some(v) => {
                let u = TrainingView { merged: t.merged.insert(p, v), ..t };
                assert(is_sound(u));
                if p >= t.atomic {
                    lemma_retracted_sound(u, changes, p, priority, cfg);
                }
            },
            None => {},
        }
    }
}

/// A round that merges a pair keeps the state sound.
pub proof fn lemma_merged_round_sound(
    t: TrainingView,
    pair: Pair,
    priority: i64,
    places: Seq<usize>,
    cfg: Settings,
)
    requires
        is_sound(t),
        is_live(pair.0, t.active, t.atomic),
        is_live(pair.1, t.active, t.atomic),
    ensures
        merged_round(t, pair, priority, places, cfg) matches Some(u) ==> is_sound(u) && u.atomic
            == t.atomic,
{
    let pair_count = count_of(t.pair_counts, pair_key(pair));
    lemma_adopted_sound(t, pair, pair_count, cfg.prefix);
    match adopted(t, pair, pair_count, cfg.prefix) {
        None => {},
        Some((t2, new_id)) => {
            let w0 = Worked { words: t2.words, changes: Seq::empty() };
            let allowed = live_ids(t2.active, t2.atomic);
            lemma_merge_places_live(
                w0,
                places,
                places.len() as int,
                pair,
                new_id,
                cfg.max_length,
                allowed,
            );
            match merge_places(w0, places, places.len() as int, pair, new_id, cfg.max_length) {
                None => {},
                Some(w) => {
                    let t2w = TrainingView { words: w.words, ..t2 };
                    assert(is_sound(t2w));
                    lemma_pruned_sound(t2w, w.changes, pair.0, pair_count, priority, cfg);
                    match pruned(t2w, w.changes, pair.0, pair_count, priority, cfg) {
                        None => {},
                        Some((t3, changes3)) => {
                            if pair.1 != pair.0 {
                                assert(is_live(pair.1, t3.active, t3.atomic));
                                lemma_pruned_sound(t3, changes3, pair.1, pair_count, priority, cfg);
                            }
                            let next = if pair.1 != pair.0 {
                                pruned(t3, changes3, pair.1, pair_count, priority, cfg)
                            } else {
                                Some((t3, changes3))
                            };
                            match next {
                                None => {},
                                Some((t4, changes4)) => {
                                    lemma_changes_taken_log(t4, changes4, changes4.len() as int);
                                },
                            }
                        },
                    }
                },
            }
        },
    }
}

/// A round keeps the state sound.
pub proof fn lemma_round_sound(t: TrainingView, cfg: Settings)
    requires
        is_sound(t),
    ensures
        round(t, cfg) matches Some(u) ==> is_sound(u) && u.atomic == t.atomic,
{
    let key = crate::pairs::top_key(t.queue.counts);
    let priority = t.queue.counts[key];
    let places = places_of(t.queue, key);
    let pair = crate::tables::key_pair(key);
    let left = TrainingView {
        queue: Queued { counts: t.queue.counts.remove(key), places: t.queue.places.remove(key) },
        ..t
    };
    assert(is_sound(left));
    if passes(left, pair, priority, cfg) {
        lemma_merged_round_sound(left, pair, priority, places, cfg);
    }
}

/// The rounds keep the state sound.
pub proof fn lemma_rounds_sound(t: TrainingView, cfg: Settings)
    requires
        is_sound(t),
    ensures
        rounds(t, cfg) matches Some(u) ==> is_sound(u) && u.atomic == t.atomic,
    decreases log_limit() - t.log.len(), t.queue.counts.dom().len(),
{
    if goes_on(t, cfg) {
        lemma_round_sound(t, cfg);
        match round(t, cfg) {
            Some(u) => {
                lemma_round_measure(t, cfg);
                lemma_rounds_sound(u, cfg);
            },
            None => {},
        }
    }
}

/// Every symbol of a spelled word is a token with a name.
pub proof fn lemma_spell_named(
    names: Names,
    chars: Seq<char>,
    n: int,
    prefix: Option<Seq<char>>,
    suffix: Option<Seq<char>>,
)
    requires
        names_wf(names),
    ensures
        spell_upto(names, chars, n, prefix, suffix) matches Some(sp) ==> names_wf(sp.names)
            && names.len() <= sp.names.len() && forall|k: int|
            0 <= k < sp.items.len() ==> (#[trigger] sp.items[k]).0 < sp.names.len(),
    decreases n,
{
    if n > 0 {
        lemma_spell_named(names, chars, n - 1, prefix, suffix);
        match spell_upto(names, chars, n - 1, prefix, suffix) {
            Some(sp) => {
                let c = chars[n - 1];
                if is_named(sp.names, seq![c]) {
                    let s = crate::alphabet::decorated(c, n == 1, n == chars.len(), prefix, suffix);
                    if named(sp.names, s) is Some {
                        lemma_named(sp.names, s);
                        let m = named(sp.names, s)->0;
                        let now = sp.items.push((id_of(m, s), 1usize));
                        assert forall|k: int| 0 <= k < now.len() implies (#[trigger] now[k]).0
                            < m.len() by {
                            if k < sp.items.len() {
                                assert(now[k] == sp.items[k]);
                            }
                        }
                    }
                }
            },
            None => {},
        }
    }
}

/// Every symbol of a spelled corpus is a token with a name.
pub proof fn lemma_spell_words_named(
    names: Names,
    corpus: Seq<(Seq<char>, u64)>,
    n: int,
    prefix: Option<Seq<char>>,
    suffix: Option<Seq<char>>,
)
    requires
        names_wf(names),
    ensures
        spell_words(names, corpus, n, prefix, suffix) matches Some(s) ==> names_wf(s.names)
            && names.len() <= s.names.len() && forall|w: int, k: int|
            0 <= w < s.words.len() && 0 <= k < s.words[w].len() ==> (#[trigger] s.words[w][k]).c
                < s.names.len(),
    decreases n,
{
    if n > 0 {
        lemma_spell_words_named(names, corpus, n - 1, prefix, suffix);
        match spell_words(names, corpus, n - 1, prefix, suffix) {
            Some(done) => {
                let (chars, count) = corpus[n - 1];
                lemma_spell_named(done.names, chars, chars.len() as int, prefix, suffix);
                match spell_words(names, corpus, n, prefix, suffix) {
                    Some(s) => {
                        let sp = spell_upto(done.names, chars, chars.len() as int, prefix, suffix)->0;
                        assert forall|w: int, k: int|
                            0 <= w < s.words.len() && 0 <= k < s.words[w].len() implies (
                        #[trigger] s.words[w][k]).c < s.names.len() by {
                            if w < done.words.len() {
                                assert(s.words[w] == done.words[w]);
                                assert(done.words[w][k].c < done.names.len());
                            } else {
                                assert(s.words[w] == chain_of(sp.items));
                                assert(chain_of(sp.items)[k].c == sp.items[k].0);
                            }
                        }
                    },
                    None => {},
                }
            },
            None => {},
        }
    }
}

/// Naming texts keeps every string at its position.
pub proof fn lemma_named_all_wf(names: Names, texts: Seq<Seq<char>>, n: int)
    requires
        names_wf(names),
    ensures
        named_all(names, texts, n) matches Some(m) ==> names_wf(m),
    decreases n,
{
    if n > 0 {
        lemma_named_all_wf(names, texts, n - 1);
        match named_all(names, texts, n - 1) {
            Some(m) => {
                if named(m, texts[n - 1]) is Some {
                    lemma_named(m, texts[n - 1]);
                }
            },
            None => {},
        }
    }
}

/// Naming the alphabet keeps every string at its position.
pub proof fn lemma_with_alphabet_wf(
    names: Names,
    weights: crate::alphabet::Weights,
    limit: Option<usize>,
    cp: int,
)
    requires
        names_wf(names),
    ensures
        with_alphabet(names, weights, limit, cp) matches Some(m) ==> names_wf(m),
    decreases cp,
{
    if cp > 0 {
        lemma_with_alphabet_wf(names, weights, limit, cp - 1);
        match with_alphabet(names, weights, limit, cp - 1) {
            Some(m) => {
                match crate::keymap::slot_of(weights, (cp - 1) as u64) {
                    Some(i) => {
                        if named(m, seq![weights[i].1.0]) is Some {
                            lemma_named(m, seq![weights[i].1.0]);
                        }
                    },
                    None => {},
                }
            },
            None => {},
        }
    }
}

/// The state with which the rounds begin is sound.
pub proof fn lemma_started_sound(plan: Plan, corpus: Seq<(Seq<char>, u64)>)
    ensures
        started(plan, corpus) matches Some(t) ==> is_sound(t),
{
    match started(plan, corpus) {
        Some(t) => {
            let empty = Seq::<(Seq<char>, u32)>::empty();
            assert(names_wf(empty));
            lemma_named_all_wf(empty, plan.special, plan.special.len() as int);
            let names1 = named_all(empty, plan.special, plan.special.len() as int)->0;
            let weights = char_weights(corpus, plan.initial);
            lemma_with_alphabet_wf(names1, weights, plan.limit, code_points());
            let names2 = with_alphabet(names1, weights, plan.limit, code_points())->0;
            lemma_spell_words_named(
                names2,
                corpus,
                corpus.len() as int,
                plan.settings.prefix,
                plan.suffix,
            );
            assert forall|w: int| 0 <= w < t.words.len() implies ids_within(
                #[trigger] t.words[w],
                live_ids(t.active, t.atomic),
            ) by {
                assert forall|k: int| 0 <= k < t.words[w].len() implies live_ids(
                    t.active,
                    t.atomic,
                ).contains((#[trigger] t.words[w][k]).c) by {
                    assert(t.words[w][k].c < t.atomic);
                }
            }
        },
        None => {},
    }
}

/// When training ends, every symbol of the corpus is a token in use: no
/// word holds a merged token that has been retracted. And every event of the
/// log draws on tokens that are in use at its rank: a merge on its parents, a
/// split on its token and on pieces that are in use once the token is not.
pub proof fn lemma_training_is_sound(plan: Plan, corpus: Seq<(Seq<char>, u64)>)
    ensures
        started(plan, corpus) matches Some(t) ==> (rounds(t, plan.settings) matches Some(u)
            ==> corpus_is_live(u.words, u.active, u.atomic) && log_is_sound(u.log, u.atomic)),
{
    lemma_started_sound(plan, corpus);
    match started(plan, corpus) {
        Some(t) => {
            lemma_rounds_sound(t, plan.settings);
        },
        None => {},
    }
}

} // verus!
