//! The strings of trained tokens: training names every merged token as its
//! two parents in a row, so the merge table that it hands out spells every
//! token as the encoder's decoding expects.

use crate::decoding::merges_spell;
use crate::encoding::spells_its_tokens;
use crate::model::{reversed, PBPE};
use crate::naming::{lemma_named, named, names_wf, Names};
use crate::pairs::{count_of, Queued};
use crate::soundness::{is_sound, lemma_round_sound, lemma_started_sound};
use crate::strmap::{lemma_position_of, position_of};
use crate::tables::{pair_key, SplitEntries};
use crate::trainer::{
    goes_on, lemma_round_measure, merges_upto, rounds, started, trained, Plan,
};
use crate::training::{
    adopted, is_live, lemma_changes_taken_log, log_limit, merge_places, merged_round,
    merged_text, passes, places_of, pruned, round, HappeningView, Settings, Tagged,
    TrainingView, Worked,
};
use crate::word::Pair;
use vstd::prelude::*;

verus! {

/// Whether an event is spelled by the names: a merge has named tokens as
/// parents, and its token has the string of the two in a row, the second
/// without the continuing prefix. A split is.
pub open spec fn event_spells(e: HappeningView, names: Names, prefix: Option<Seq<char>>) -> bool {
    match e {
        HappeningView::Merge { pair, new_id } => pair.0 < names.len() && pair.1 < names.len()
            && new_id < names.len() && names[new_id as int].0 == merged_text(names, pair, prefix),
        HappeningView::Split { .. } => true,
    }
}

/// Whether every event of the log is spelled by the names.
pub open spec fn log_spells(log: Seq<HappeningView>, names: Names, prefix: Option<Seq<char>>) -> bool {
    forall|r: int| 0 <= r < log.len() ==> event_spells(#[trigger] log[r], names, prefix)
}

/// Adopting a pair keeps the log spelled.
pub proof fn lemma_adopted_spells(t: TrainingView, pair: Pair, pair_count: i64, prefix: Option<Seq<char>>)
    requires
        is_sound(t),
        log_spells(t.log, t.names, prefix),
        is_live(pair.0, t.active, t.atomic),
        is_live(pair.1, t.active, t.atomic),
    ensures
        adopted(t, pair, pair_count, prefix) matches Some((u, new_id)) ==> log_spells(
            u.log,
            u.names,
            prefix,
        ),
{
    match adopted(t, pair, pair_count, prefix) {
        Some((u, new_id)) => {
            let text = merged_text(t.names, pair, prefix);
            lemma_named(t.names, text);
            lemma_position_of(u.names, text);
            assert(pair.0 < t.names.len() && pair.1 < t.names.len());
            assert forall|r: int| 0 <= r < u.log.len() implies event_spells(
                #[trigger] u.log[r],
                u.names,
                prefix,
            ) by {
                if r < t.log.len() {
                    assert(u.log[r] == t.log[r]);
                    assert(event_spells(t.log[r], t.names, prefix));
                    match t.log[r] {
                        HappeningView::Merge { pair: p, new_id: id } => {
                            assert(u.names[p.0 as int] == t.names[p.0 as int]);
                            assert(u.names[p.1 as int] == t.names[p.1 as int]);
                            assert(u.names[id as int] == t.names[id as int]);
                        },
                        HappeningView::Split { .. } => {},
                    }
                } else {
                    assert(u.log[r] == (HappeningView::Merge { pair, new_id }));
                    assert(u.names[pair.0 as int] == t.names[pair.0 as int]);
                    assert(u.names[pair.1 as int] == t.names[pair.1 as int]);
                    let at = position_of(u.names, text)->0;
                    assert(u.names[at].1 == at);
                }
            }
        },
        None => {},
    }
}

/// Looking at a parent keeps the names, and adds no merge to the log.
pub proof fn lemma_pruned_spells(
    t: TrainingView,
    changes: Seq<Tagged>,
    p: u32,
    pair_count: i64,
    priority: i64,
    cfg: Settings,
)
    requires
        log_spells(t.log, t.names, cfg.prefix),
    ensures
        pruned(t, changes, p, pair_count, priority, cfg) matches Some((u, c)) ==> u.names == t.names
            && log_spells(u.log, u.names, cfg.prefix),
{
    match pruned(t, changes, p, pair_count, priority, cfg) {
        Some((u, c)) => {
            assert forall|r: int| 0 <= r < u.log.len() implies event_spells(
                #[trigger] u.log[r],
                u.names,
                cfg.prefix,
            ) by {
                if r < t.log.len() {
                    assert(u.log[r] == t.log[r]);
                }
            }
        },
        None => {},
    }
}

/// A round that merges a pair keeps the log spelled.
pub proof fn lemma_merged_round_spells(
    t: TrainingView,
    pair: Pair,
    priority: i64,
    places: Seq<usize>,
    cfg: Settings,
)
    requires
        is_sound(t),
        log_spells(t.log, t.names, cfg.prefix),
        is_live(pair.0, t.active, t.atomic),
        is_live(pair.1, t.active, t.atomic),
    ensures
        merged_round(t, pair, priority, places, cfg) matches Some(u) ==> log_spells(
            u.log,
            u.names,
            cfg.prefix,
        ),
{
    let pair_count = count_of(t.pair_counts, pair_key(pair));
    lemma_adopted_spells(t, pair, pair_count, cfg.prefix);
    match adopted(t, pair, pair_count, cfg.prefix) {
        None => {},
        Some((t2, new_id)) => {
            match merge_places(
                Worked { words: t2.words, changes: Seq::empty() },
                places,
                places.len() as int,
                pair,
                new_id,
                cfg.max_length,
            ) {
                None => {},
                Some(w) => {
                    let t2w = TrainingView { words: w.words, ..t2 };
                    lemma_pruned_spells(t2w, w.changes, pair.0, pair_count, priority, cfg);
                    match pruned(t2w, w.changes, pair.0, pair_count, priority, cfg) {
                        None => {},
                        Some((t3, changes3)) => {
                            lemma_pruned_spells(t3, changes3, pair.1, pair_count, priority, cfg);
                            let next = if pair.1 != pair.0 {
                                pruned(t3, changes3, pair.1, pair_count, priority, cfg)
                            } else {
                                Some((t3, changes3))
                            };
                            match next {
                                None => {},
                                Some((t4, changes4)) => {
                                    lemma_changes_taken_log(t4, changes4, changes4.len() as int);
                                },
                            }
                        },
                    }
                },
            }
        },
    }
}

/// A round keeps the log spelled.
pub proof fn lemma_round_spells(t: TrainingView, cfg: Settings)
    requires
        is_sound(t),
        log_spells(t.log, t.names, cfg.prefix),
    ensures
        round(t, cfg) matches Some(u) ==> log_spells(u.log, u.names, cfg.prefix),
{
    let key = crate::pairs::top_key(t.queue.counts);
    let priority = t.queue.counts[key];
    let places = places_of(t.queue, key);
    let pair = crate::tables::key_pair(key);
    let left = TrainingView {
        queue: Queued { counts: t.queue.counts.remove(key), places: t.queue.places.remove(key) },
        ..t
    };
    assert(is_sound(left));
    if passes(left, pair, priority, cfg) {
        lemma_merged_round_spells(left, pair, priority, places, cfg);
    }
}

/// The rounds keep the log spelled.
pub proof fn lemma_rounds_spell(t: TrainingView, cfg: Settings)
    requires
        is_sound(t),
        log_spells(t.log, t.names, cfg.prefix),
    ensures
        rounds(t, cfg) matches Some(u) ==> names_wf(u.names) && log_spells(
            u.log,
            u.names,
            cfg.prefix,
        ),
    decreases log_limit() - t.log.len(), t.queue.counts.dom().len(),
{
    if goes_on(t, cfg) {
        lemma_round_sound(t, cfg);
        lemma_round_spells(t, cfg);
        match round(t, cfg) {
            Some(u) => {
                lemma_round_measure(t, cfg);
                lemma_rounds_spell(u, cfg);
            },
            None => {},
        }
    }
}

/// The reverse of names that each have their position as id leads from
/// each position to its string.
pub proof fn lemma_reversed_names(names: Names)
    requires
        names_wf(names),
    ensures
        forall|id: u32|
            id < names.len() ==> #[trigger] reversed(names).contains_key(id) && reversed(names)[id]
                == names[id as int].0,
    decreases names.len(),
{
    if names.len() > 0 {
        let head = names.drop_last();
        assert(names_wf(head)) by {
            assert forall|i: int| 0 <= i < head.len() implies (#[trigger] head[i]).1 == i by {
                assert(head[i] == names[i]);
            }
            assert forall|i: int, j: int| 0 <= i < j < head.len() implies (#[trigger] head[i]).0 != (
            #[trigger] head[j]).0 by {
                assert(head[i] == names[i]);
                assert(head[j] == names[j]);
            }
        }
        lemma_reversed_names(head);
        let last = names.last();
        assert(last == names[names.len() - 1]);
        assert(last.1 == names.len() - 1);
        assert forall|id: u32| id < names.len() implies #[trigger] reversed(names).contains_key(id)
            && reversed(names)[id] == names[id as int].0 by {
            if id < names.len() - 1 {
                assert(reversed(head).contains_key(id));
                assert(head[id as int] == names[id as int]);
            }
        }
    }
}

/// Every entry of the merge table of a log stands for a merge of the log.
pub proof fn lemma_merges_upto_logged(log: Seq<HappeningView>, n: int)
    requires
        0 <= n <= log.len(),
    ensures
        forall|pair: Pair, i: int|
            merges_upto(log, n).contains_key(pair) && 0 <= i < merges_upto(log, n)[pair].len()
                ==> exists|r: int|
                0 <= r < n && log[r] == (HappeningView::Merge {
                    pair,
                    new_id: (#[trigger] merges_upto(log, n)[pair][i]).1,
                }),
    decreases n,
{
    if n > 0 {
        lemma_merges_upto_logged(log, n - 1);
        let before = merges_upto(log, n - 1);
        let after = merges_upto(log, n);
        assert forall|pair: Pair, i: int|
            after.contains_key(pair) && 0 <= i < after[pair].len() implies exists|r: int|
            0 <= r < n && log[r] == (HappeningView::Merge {
                pair,
                new_id: (#[trigger] after[pair][i]).1,
            }) by {
            match log[n - 1] {
                HappeningView::Merge { pair: p, new_id } => {
                    if p == pair && i == after[pair].len() - 1 {
                        assert(log[n - 1] == (HappeningView::Merge {
                            pair,
                            new_id: after[pair][i].1,
                        }));
                    } else {
                        if p == pair {
                            assert(before.contains_key(pair));
                            assert(after[pair][i] == before[pair][i]);
                        } else {
                            assert(after[pair] == before[pair]);
                        }
                        let r = choose|r: int|
                            0 <= r < n - 1 && log[r] == (HappeningView::Merge {
                                pair,
                                new_id: before[pair][i].1,
                            });
                        assert(0 <= r < n);
                    }
                },
                HappeningView::Split { .. } => {
                    let r = choose|r: int|
                        0 <= r < n - 1 && log[r] == (HappeningView::Merge {
                            pair,
                            new_id: before[pair][i].1,
                        });
                    assert(0 <= r < n);
                },
            }
        }
    }
}

/// The merge table of a spelled log spells every merged token as its two
/// parents in a row.
pub proof fn lemma_spelled_log_gives_spelled_merges(
    log: Seq<HappeningView>,
    names: Names,
    prefix: Option<Seq<char>>,
)
    requires
        names_wf(names),
        log_spells(log, names, prefix),
    ensures
        merges_spell(merges_upto(log, log.len() as int), reversed(names), prefix),
{
    let merges = merges_upto(log, log.len() as int);
    let strings = reversed(names);
    lemma_merges_upto_logged(log, log.len() as int);
    lemma_reversed_names(names);
    assert forall|pair: Pair, i: int|
        merges.contains_key(pair) && 0 <= i < merges[pair].len() implies strings[(
    #[trigger] merges[pair][i]).1] == strings[pair.0] + crate::training::strip_prefix(
        strings[pair.1],
        prefix,
    ) by {
        let new_id = merges[pair][i].1;
        let r = choose|r: int|
            0 <= r < log.len() && log[r] == (HappeningView::Merge { pair, new_id });
        assert(event_spells(log[r], names, prefix));
        assert(strings.contains_key(new_id));
        assert(strings.contains_key(pair.0));
        assert(strings.contains_key(pair.1));
    }
}

/// Training hands out a merge table that spells every merged token as its
/// two parents in a row, the second without the continuing prefix.
pub proof fn lemma_trained_merges_spell(plan: Plan, corpus: Seq<(Seq<char>, u64)>)
    ensures
        trained(plan, corpus) matches Some(out) ==> merges_spell(
            out.merges,
            reversed(out.names),
            plan.settings.prefix,
        ),
{
    lemma_started_sound(plan, corpus);
    match started(plan, corpus) {
        Some(t) => {
            assert(t.log =~= Seq::<HappeningView>::empty());
            lemma_rounds_spell(t, plan.settings);
            match rounds(t, plan.settings) {
                Some(u) => {
                    lemma_spelled_log_gives_spelled_merges(u.log, u.names, plan.settings.prefix);
                },
                None => {},
            }
        },
        None => {},
    }
}

/// A model that holds what training has handed out spells its merged
/// tokens as decoding expects, and its reversed vocabulary leads back from
/// every id of the vocabulary. Where training has retracted no token, the
/// model spells all its tokens so.
pub proof fn lemma_trained_model_spells(m: &PBPE, plan: Plan, corpus: Seq<(Seq<char>, u64)>)
    requires
        trained(plan, corpus) matches Some(out) && m.vocab_entries() == out.names
            && m.vocab_r_map() == reversed(out.names) && m.merges_map() == out.merges
            && m.splits_map() == out.splits,
        m.lexicon().prefix == plan.settings.prefix,
    ensures
        forall|k: Seq<char>| #[trigger]
            m.vocab_map().contains_key(k) ==> m.vocab_r_map()[m.vocab_map()[k]] == k,
        merges_spell(m.merges_map(), m.vocab_r_map(), m.lexicon().prefix),
        m.splits_map() == Map::<u32, SplitEntries>::empty() ==> spells_its_tokens(m),
{
    lemma_trained_merges_spell(plan, corpus);
    lemma_started_sound(plan, corpus);
    let t = started(plan, corpus)->0;
    lemma_rounds_spell(t, plan.settings);
    let names = m.vocab_entries();
    lemma_reversed_names(names);
    assert forall|k: Seq<char>| #[trigger] m.vocab_map().contains_key(k) implies m.vocab_r_map()[m.vocab_map()[k]]
        == k by {
        m.vocab.lemma_get(k);
        lemma_position_of(names, k);
        let at = position_of(names, k)->0;
        assert(names[at].1 == at);
        assert(reversed(names).contains_key(at as u32));
    }
}

} // verus!
