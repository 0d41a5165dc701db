//! The tables that training hands out, read by rank: every merge of the
//! merge table makes a token that is no atomic one, out of two tokens that
//! are in use at its rank.

use crate::soundness::{event_is_sound, in_use_after, lemma_rounds_sound, lemma_started_sound};
use crate::tables::{MergeEntries, SplitEntries};
use crate::trainer::{
    goes_on, lemma_round_measure, merges_upto, piece_ids, rounds, splits_upto, started, trained,
    Plan,
};
use crate::training::{log_limit, round, HappeningView, Settings, TrainingView};
use crate::word::Pair;
use vstd::prelude::*;

verus! {

/// Whether the tables say that the token `id` is in use at the rank `r`: a
/// merge of a lower rank has made it, and no split has retracted it at a rank
/// between the two.
pub open spec fn live_at(
    merges: Map<Pair, MergeEntries>,
    splits: Map<u32, SplitEntries>,
    id: u32,
    r: int,
) -> bool {
    exists|pair: Pair, i: int|
        merges.contains_key(pair) && 0 <= i < merges[pair].len() && (#[trigger] merges[pair][i]).1
            == id && merges[pair][i].0 < r && forall|j: int|
            splits.contains_key(id) && 0 <= j < splits[id].len() ==> !(merges[pair][i].0 < (
            #[trigger] splits[id][j]).0 < r)
}

/// Every entry of the merge table of a log stands for the merge that the log
/// has at the rank of the entry.
pub proof fn lemma_merge_entries_are_logged(log: Seq<HappeningView>, n: int)
    requires
        0 <= n <= log.len(),
        n <= log_limit(),
    ensures
        forall|pair: Pair, i: int|
            merges_upto(log, n).contains_key(pair) && 0 <= i < merges_upto(log, n)[pair].len() ==> (
            #[trigger] merges_upto(log, n)[pair][i]).0 < n && log[merges_upto(
                log,
                n,
            )[pair][i].0 as int] == (HappeningView::Merge {
                pair,
                new_id: merges_upto(log, n)[pair][i].1,
            }),
    decreases n,
{
    if n > 0 {
        lemma_merge_entries_are_logged(log, n - 1);
        let before = merges_upto(log, n - 1);
        let after = merges_upto(log, n);
        assert forall|pair: Pair, i: int|
            after.contains_key(pair) && 0 <= i < after[pair].len() implies (
        #[trigger] after[pair][i]).0 < n && log[after[pair][i].0 as int] == (HappeningView::Merge {
            pair,
            new_id: after[pair][i].1,
        }) by {
            match log[n - 1] {
                HappeningView::Merge { pair: p, new_id } => {
                    if p == pair && i == after[pair].len() - 1 {
                        assert(after[pair][i] == (((n - 1) as u32, new_id)));
                    } else if p == pair {
                        assert(before.contains_key(pair));
                        assert(after[pair][i] == before[pair][i]);
                    } else {
                        assert(after[pair] == before[pair]);
                    }
                },
                HappeningView::Split { .. } => {},
            }
        }
    }
}

/// Every merge of a log has its entry in the merge table of the log, under
/// its rank.
pub proof fn lemma_logged_merges_have_entries(log: Seq<HappeningView>, n: int, r: int)
    requires
        0 <= r < n <= log.len(),
        n <= log_limit(),
        log[r] is Merge,
    ensures
        ({
            let pair = log[r]->Merge_pair;
            let new_id = log[r]->Merge_new_id;
            merges_upto(log, n).contains_key(pair) && exists|i: int|
                0 <= i < merges_upto(log, n)[pair].len() && #[trigger] merges_upto(
                    log,
                    n,
                )[pair][i] == (r as u32, new_id)
        }),
    decreases n,
{
    let pair = log[r]->Merge_pair;
    let new_id = log[r]->Merge_new_id;
    let before = merges_upto(log, n - 1);
    let after = merges_upto(log, n);
    if r == n - 1 {
        let i = after[pair].len() - 1;
        assert(after[pair][i] == (r as u32, new_id));
    } else {
        lemma_logged_merges_have_entries(log, n - 1, r);
        let i = choose|i: int|
            0 <= i < before[pair].len() && #[trigger] before[pair][i] == (r as u32, new_id);
        match log[n - 1] {
            HappeningView::Merge { pair: p, new_id: other } => {
                if p == pair {
                    assert(after[pair][i] == before[pair][i]);
                } else {
                    assert(after[pair] == before[pair]);
                }
            },
            HappeningView::Split { .. } => {},
        }
        assert(after[pair][i] == (r as u32, new_id));
    }
}

/// Every entry of the split table of a log stands for a split of its token
/// that the log has at the rank of the entry.
pub proof fn lemma_split_entries_are_logged(log: Seq<HappeningView>, n: int)
    requires
        0 <= n <= log.len(),
        n <= log_limit(),
    ensures
        forall|id: u32, j: int|
            splits_upto(log, n).contains_key(id) && 0 <= j < splits_upto(log, n)[id].len() ==> (
            #[trigger] splits_upto(log, n)[id][j]).0 < n && log[splits_upto(
                log,
                n,
            )[id][j].0 as int] is Split && log[splits_upto(log, n)[id][j].0 as int]->Split_id == id,
    decreases n,
{
    if n > 0 {
        lemma_split_entries_are_logged(log, n - 1);
        let before = splits_upto(log, n - 1);
        let after = splits_upto(log, n);
        assert forall|id: u32, j: int|
            after.contains_key(id) && 0 <= j < after[id].len() implies (#[trigger] after[id][j]).0
            < n && log[after[id][j].0 as int] is Split && log[after[id][j].0 as int]->Split_id
            == id by {
            match log[n - 1] {
                HappeningView::Merge { .. } => {},
                HappeningView::Split { id: subject, pieces } => {
                    if subject == id && j == after[id].len() - 1 {
                        assert(after[id][j] == (((n - 1) as u32, piece_ids(pieces))));
                    } else if subject == id {
                        assert(before.contains_key(id));
                        assert(after[id][j] == before[id][j]);
                    } else {
                        assert(after[id] == before[id]);
                    }
                },
            }
        }
    }
}

/// A merged token that is in use after the first `n` events of a log was
/// made by a merge among them, and no split among them has retracted it
/// since.
pub proof fn lemma_in_use_since(log: Seq<HappeningView>, n: int, id: u32, atomic: u32)
    requires
        0 <= n <= log.len(),
        id >= atomic,
        in_use_after(log, n, id, atomic),
    ensures
        exists|r: int|
            0 <= r < n && (#[trigger] log[r]) is Merge && log[r]->Merge_new_id == id && forall|
                q: int,
            |
                r < q < n ==> !((#[trigger] log[q]) is Split && log[q]->Split_id == id),
    decreases n,
{
    if n > 0 {
        match log[n - 1] {
            HappeningView::Merge { new_id, .. } => {
                if new_id == id {
                    let r = n - 1;
                    assert(log[r] is Merge && log[r]->Merge_new_id == id);
                } else {
                    lemma_in_use_since(log, n - 1, id, atomic);
                    let r = choose|r: int|
                        0 <= r < n - 1 && (#[trigger] log[r]) is Merge && log[r]->Merge_new_id == id
                            && forall|q: int|
                            r < q < n - 1 ==> !((#[trigger] log[q]) is Split && log[q]->Split_id
                                == id);
                    assert(log[r] is Merge && log[r]->Merge_new_id == id);
                }
            },
            HappeningView::Split { id: subject, .. } => {
                lemma_in_use_since(log, n - 1, id, atomic);
                let r = choose|r: int|
                    0 <= r < n - 1 && (#[trigger] log[r]) is Merge && log[r]->Merge_new_id == id
                        && forall|q: int|
                        r < q < n - 1 ==> !((#[trigger] log[q]) is Split && log[q]->Split_id == id);
                assert(log[r] is Merge && log[r]->Merge_new_id == id);
            },
        }
    }
}

/// Where a log says that a merged token is in use at a rank, the tables of
/// the log say so.
pub proof fn lemma_in_use_by_the_tables(log: Seq<HappeningView>, n: int, id: u32, atomic: u32)
    requires
        0 <= n <= log.len(),
        log.len() <= log_limit(),
        id >= atomic,
        in_use_after(log, n, id, atomic),
    ensures
        live_at(
            merges_upto(log, log.len() as int),
            splits_upto(log, log.len() as int),
            id,
            n,
        ),
{
    let merges = merges_upto(log, log.len() as int);
    let splits = splits_upto(log, log.len() as int);
    lemma_in_use_since(log, n, id, atomic);
    let r = choose|r: int|
        0 <= r < n && (#[trigger] log[r]) is Merge && log[r]->Merge_new_id == id && forall|q: int|
            r < q < n ==> !((#[trigger] log[q]) is Split && log[q]->Split_id == id);
    let pair = log[r]->Merge_pair;
    lemma_logged_merges_have_entries(log, log.len() as int, r);
    let i = choose|i: int|
        0 <= i < merges[pair].len() && #[trigger] merges[pair][i] == (r as u32, id);
    lemma_split_entries_are_logged(log, log.len() as int);
    assert forall|j: int| splits.contains_key(id) && 0 <= j < splits[id].len() implies !(
    merges[pair][i].0 < (#[trigger] splits[id][j]).0 < n) by {
        let q = splits[id][j].0 as int;
        if r < q < n {
            assert(log[q] is Split && log[q]->Split_id == id);
        }
    }
    assert(merges[pair][i].1 == id && merges[pair][i].0 < n);
}

/// The rounds leave the log no longer than a log can be.
pub proof fn lemma_rounds_log_len(t: TrainingView, cfg: Settings)
    requires
        t.log.len() <= log_limit(),
    ensures
        rounds(t, cfg) matches Some(u) ==> u.log.len() <= log_limit(),
    decreases log_limit() - t.log.len(), t.queue.counts.dom().len(),
{
    if goes_on(t, cfg) {
        match round(t, cfg) {
            Some(u) => {
                lemma_round_measure(t, cfg);
                lemma_rounds_log_len(u, cfg);
            },
            None => {},
        }
    }
}

/// Every merge of the merge table that training hands out makes a token
/// that is no atomic one, out of two tokens that have names and are in use at
/// its rank: an atomic token always is, and a merged one was made by a merge
/// of a lower rank and not retracted by a split at a rank between the two.
pub proof fn lemma_trained_merges_draw_on_tokens_in_use(plan: Plan, corpus: Seq<(Seq<char>, u64)>)
    ensures
        trained(plan, corpus) matches Some(out) ==> forall|pair: Pair, i: int|
            out.merges.contains_key(pair) && 0 <= i < out.merges[pair].len() ==> {
                let rank = (#[trigger] out.merges[pair][i]).0;
                &&& out.merges[pair][i].1 >= out.atomic
                &&& out.merges[pair][i].1 < out.names.len()
                &&& pair.0 < out.names.len()
                &&& pair.1 < out.names.len()
                &&& pair.0 >= out.atomic ==> live_at(out.merges, out.splits, pair.0, rank as int)
                &&& pair.1 >= out.atomic ==> live_at(out.merges, out.splits, pair.1, rank as int)
            },
{
    lemma_started_sound(plan, corpus);
    match started(plan, corpus) {
        Some(t) => {
            assert(t.log =~= Seq::<HappeningView>::empty());
            lemma_rounds_sound(t, plan.settings);
            lemma_rounds_log_len(t, plan.settings);
            crate::spelling::lemma_rounds_spell(t, plan.settings);
            match rounds(t, plan.settings) {
                Some(u) => {
                    let log = u.log;
                    let n = log.len() as int;
                    let merges = merges_upto(log, n);
                    let splits = splits_upto(log, n);
                    lemma_merge_entries_are_logged(log, n);
                    assert forall|pair: Pair, i: int|
                        merges.contains_key(pair) && 0 <= i < merges[pair].len() implies {
                        let rank = (#[trigger] merges[pair][i]).0;
                        &&& merges[pair][i].1 >= u.atomic
                        &&& merges[pair][i].1 < u.names.len()
                        &&& pair.0 < u.names.len()
                        &&& pair.1 < u.names.len()
                        &&& pair.0 >= u.atomic ==> live_at(merges, splits, pair.0, rank as int)
                        &&& pair.1 >= u.atomic ==> live_at(merges, splits, pair.1, rank as int)
                    } by {
                        let r = merges[pair][i].0 as int;
                        assert(event_is_sound(log, r, u.atomic));
                        assert(crate::spelling::event_spells(log[r], u.names, plan.settings.prefix));
                        if pair.0 >= u.atomic {
                            lemma_in_use_by_the_tables(log, r, pair.0, u.atomic);
                        }
                        if pair.1 >= u.atomic {
                            lemma_in_use_by_the_tables(log, r, pair.1, u.atomic);
                        }
                    }
                },
                None => {},
            }
        },
        None => {},
    }
}

} // verus!
