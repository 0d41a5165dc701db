//! Byte lengths: what the encoder keeps of the bytes of a word.
//!
//! Where no split is replayed, the symbols of an encoded word cover the bytes
//! of the word: their lengths sum to its byte length, and their offsets lie
//! end to end from zero. Their summed length then fits wherever the symbols
//! can be counted.

use crate::decoding::{all_in_vocab, surface_at};
use crate::model::{
    byte_ids, byte_items, draft_step, draft_upto, encoded_word, flushed, held, initial_items,
    lemma_byte_ids_len, per_char, surface, text_or_empty, word_budget, Draft, Item, Lexicon,
    PBPE,
};
use crate::replay::{
    apply_merge, event_followups, first_event, lemma_first_event, lemma_step_decreases,
    live_symbols, lowest_count, merge_fires, rank_room, relinked, replay_run, replay_step,
    replayed, seeds, EventView, Replay,
};
use crate::tables::{MergeEntries, SplitEntries};
use crate::text::{lemma_encode_concat, lemma_encode_one, utf8_len};
use crate::word::{chain_of, offsets_of, total_len, Pair, Symbol};
use vstd::prelude::*;
use vstd::utf8::*;

verus! {

/// The offsets of a word lie end to end: the first begins at zero, each
/// begins where the one before it ends, and the last ends at the summed
/// length.
pub open spec fn offsets_tile(s: Seq<Symbol>) -> bool {
    &&& s.len() > 0 ==> offsets_of(s)[0].0 == 0
    &&& forall|i: int| 0 <= i < s.len() - 1 ==> (#[trigger] offsets_of(s)[i]).1 == offsets_of(s)[i + 1].0
    &&& s.len() > 0 ==> offsets_of(s)[s.len() - 1].1 == total_len(s)
}

/// The offsets of every word lie end to end.
pub proof fn lemma_offsets_tile(s: Seq<Symbol>)
    ensures
        offsets_tile(s),
{
    if s.len() > 0 {
        assert(s.take(0) =~= Seq::<Symbol>::empty());
        assert(s.take(s.len() - 1) =~= s.drop_last());
    }
    assert forall|i: int| 0 <= i < s.len() - 1 implies (#[trigger] offsets_of(s)[i]).1
        == offsets_of(s)[i + 1].0 by {
        assert(s.take(i + 1).drop_last() =~= s.take(i));
    }
}

/// Replacing a symbol changes the summed length by the difference of the
/// lengths.
pub proof fn lemma_total_len_update(s: Seq<Symbol>, i: int, x: Symbol)
    requires
        0 <= i < s.len(),
    ensures
        total_len(s.update(i, x)) == total_len(s) - s[i].len + x.len,
    decreases s.len(),
{
    let t = s.update(i, x);
    if i == s.len() - 1 {
        assert(t.drop_last() =~= s.drop_last());
    } else {
        lemma_total_len_update(s.drop_last(), i, x);
        assert(t.drop_last() =~= s.drop_last().update(i, x));
    }
}

/// Every `next` leads forward or nowhere.
pub open spec fn leads_forward(s: Seq<Symbol>) -> bool {
    forall|i: int| 0 <= i < s.len() ==> (#[trigger] s[i]).next == -1 || i < s[i].next < s.len()
}

/// Only merges wait.
pub open spec fn only_merges(q: Seq<EventView>) -> bool {
    forall|i: int| 0 <= i < q.len() ==> #[trigger] q[i] is Merge
}

/// A merge of a slot with another slot keeps the summed length.
pub proof fn lemma_merge_keeps_sum(s: Seq<Symbol>, pos: int, rank: u32, new_id: u32, merges: Map<
    Pair,
    MergeEntries,
>)
    requires
        merge_fires(s, pos, rank, new_id, merges),
        s[pos].next != pos,
    ensures
        total_len(apply_merge(s, pos, new_id)) == total_len(s),
{
    let next_pos = s[pos].next as int;
    let right = s[next_pos];
    let merged = Symbol {
        c: new_id,
        prev: s[pos].prev,
        next: right.next,
        len: (s[pos].len + right.len) as usize,
    };
    let s1 = s.update(pos, merged);
    let s2 = s1.update(next_pos, Symbol { len: 0, ..s1[next_pos] });
    lemma_total_len_update(s, pos, merged);
    lemma_total_len_update(s1, next_pos, Symbol { len: 0, ..s1[next_pos] });
    if 0 <= right.next < s.len() {
        lemma_total_len_update(
            s2,
            right.next as int,
            Symbol { prev: pos as isize, ..s2[right.next as int] },
        );
    }
}

/// A merge keeps the summed length, and the links forward.
pub proof fn lemma_merge_keeps_length(s: Seq<Symbol>, pos: int, rank: u32, new_id: u32, merges: Map<
    Pair,
    MergeEntries,
>)
    requires
        leads_forward(s),
        merge_fires(s, pos, rank, new_id, merges),
    ensures
        total_len(apply_merge(s, pos, new_id)) == total_len(s),
        leads_forward(apply_merge(s, pos, new_id)),
        apply_merge(s, pos, new_id).len() == s.len(),
{
    let next_pos = s[pos].next as int;
    lemma_merge_keeps_sum(s, pos, rank, new_id, merges);
    let t = apply_merge(s, pos, new_id);
    assert forall|i: int| 0 <= i < t.len() implies (#[trigger] t[i]).next == -1 || i < t[i].next
        < t.len() by {
        assert(s[i].next == -1 || i < s[i].next < s.len());
        assert(s[next_pos].next == -1 || next_pos < s[next_pos].next < s.len());
    }
}

/// Where the table of splits is empty, a step keeps the summed length, the
/// links forward, and the queue free of splits.
pub proof fn lemma_step_keeps_length(st: Replay, merges: Map<Pair, MergeEntries>)
    requires
        st.queue.len() > 0,
        leads_forward(st.syms),
        only_merges(st.queue),
    ensures
        total_len(replay_step(st, merges, Map::empty()).syms) == total_len(st.syms),
        leads_forward(replay_step(st, merges, Map::empty()).syms),
        only_merges(replay_step(st, merges, Map::empty()).queue),
{
    let splits = Map::<u32, SplitEntries>::empty();
    let q = st.queue;
    let k = first_event(q);
    lemma_first_event(q);
    let e = q[k];
    let s = st.syms;
    let rest = q.remove(k);
    let f = event_followups(s, e, merges, splits);
    match e {
        EventView::Merge { pos, rank, new_id } => {
            if merge_fires(s, pos as int, rank, new_id, merges) {
                lemma_merge_keeps_length(s, pos as int, rank, new_id, merges);
            }
        },
        EventView::Split { .. } => {},
    }
    assert(only_merges(f));
    let q2 = rest + f;
    assert forall|i: int| 0 <= i < q2.len() implies #[trigger] q2[i] is Merge by {
        if i < rest.len() {
            if i < k {
                assert(q2[i] == q[i]);
            } else {
                assert(q2[i] == q[i + 1]);
            }
        } else {
            assert(q2[i] == f[i - rest.len()]);
        }
    }
}

/// Where the table of splits is empty, the replay keeps the summed length.
pub proof fn lemma_run_keeps_length(st: Replay, merges: Map<Pair, MergeEntries>)
    requires
        leads_forward(st.syms),
        only_merges(st.queue),
    ensures
        total_len(replay_run(st, merges, Map::empty())) == total_len(st.syms),
    decreases rank_room(st.queue), lowest_count(st.queue),
{
    if st.queue.len() > 0 {
        lemma_step_decreases(st, merges, Map::empty());
        lemma_step_keeps_length(st, merges);
        lemma_run_keeps_length(replay_step(st, merges, Map::empty()), merges);
    }
}

/// Dropping the slots of length zero keeps the summed length.
pub proof fn lemma_live_keeps_length(s: Seq<Symbol>)
    ensures
        total_len(live_symbols(s)) == total_len(s),
    decreases s.len(),
{
    if s.len() > 0 {
        lemma_live_keeps_length(s.drop_last());
        if s.last().len != 0 {
            assert(live_symbols(s).drop_last() =~= live_symbols(s.drop_last()));
        }
    }
}

/// The events that a word starts with are merges.
pub proof fn lemma_seeds_are_merges(s: Seq<Symbol>, merges: Map<Pair, MergeEntries>, n: int)
    ensures
        only_merges(seeds(s, merges, n)),
    decreases n,
{
    if n > 0 {
        lemma_seeds_are_merges(s, merges, n - 1);
        let head = seeds(s, merges, n - 1);
        let all = seeds(s, merges, n);
        assert forall|i: int| 0 <= i < all.len() implies #[trigger] all[i] is Merge by {
            if i < head.len() {
                assert(all[i] == head[i]);
            }
        }
    }
}

/// Where the table of splits is empty, a replayed word has the summed length
/// that it had before.
pub proof fn lemma_replayed_keeps_length(s: Seq<Symbol>, merges: Map<Pair, MergeEntries>)
    requires
        leads_forward(s),
    ensures
        total_len(replayed(s, merges, Map::empty())) == total_len(s),
{
    lemma_seeds_are_merges(s, merges, s.len() - 1);
    let st = Replay { syms: s, queue: seeds(s, merges, s.len() - 1) };
    lemma_run_keeps_length(st, merges);
    lemma_live_keeps_length(replay_run(st, merges, Map::empty()));
    let live = live_symbols(replay_run(st, merges, Map::empty()));
    lemma_same_lens(relinked(live), live);
}

/// The summed byte length of a list of items.
pub open spec fn items_len(items: Seq<Item>) -> int
    decreases items.len(),
{
    if items.len() == 0 {
        0
    } else {
        items_len(items.drop_last()) + items.last().1
    }
}

/// Items in a row have the summed lengths of the two parts.
pub proof fn lemma_items_len_concat(a: Seq<Item>, b: Seq<Item>)
    ensures
        items_len(a + b) == items_len(a) + items_len(b),
    decreases b.len(),
{
    if b.len() == 0 {
        assert(a + b =~= a);
    } else {
        lemma_items_len_concat(a, b.drop_last());
        assert((a + b).drop_last() =~= a + b.drop_last());
    }
}

/// The symbols that stand for bytes have one byte each.
pub proof fn lemma_byte_items_len(ids: Seq<u32>)
    ensures
        items_len(byte_items(ids)) == ids.len(),
    decreases ids.len(),
{
    if ids.len() > 0 {
        lemma_byte_items_len(ids.drop_last());
        assert(byte_items(ids).drop_last() =~= byte_items(ids.drop_last()));
    }
}

/// The word of a list of items has the summed length of the items, and its
/// links lead forward.
pub proof fn lemma_chain_length(items: Seq<Item>)
    requires
        items.len() <= isize::MAX,
    ensures
        total_len(chain_of(items)) == items_len(items),
        leads_forward(chain_of(items)),
    decreases items.len(),
{
    if items.len() > 0 {
        lemma_chain_length(items.drop_last());
        let whole = chain_of(items);
        let head = chain_of(items.drop_last());
        assert(whole.drop_last().len() == head.len());
        lemma_same_lens(whole.drop_last(), head);
    }
}

/// Words whose symbols have the same lengths have the same summed length.
pub proof fn lemma_same_lens(a: Seq<Symbol>, b: Seq<Symbol>)
    requires
        a.len() == b.len(),
        forall|i: int| 0 <= i < a.len() ==> (#[trigger] a[i]).len == b[i].len,
    ensures
        total_len(a) == total_len(b),
    decreases a.len(),
{
    if a.len() > 0 {
        assert forall|i: int| 0 <= i < a.drop_last().len() implies (#[trigger] a.drop_last()[i]).len
            == b.drop_last()[i].len by {
            assert(a.drop_last()[i] == a[i]);
            assert(b.drop_last()[i] == b[i]);
        }
        lemma_same_lens(a.drop_last(), b.drop_last());
        assert(a.last() == a[a.len() - 1]);
        assert(b.last() == b[b.len() - 1]);
    }
}

/// The bytes that a draft accounts for: those of its items, and those of the
/// unknown-token symbol that is held back.
pub open spec fn draft_len(d: Draft) -> int {
    items_len(d.items) + (match d.unk {
        Some(u) => u.1 as int,
        None => 0,
    })
}

/// Whether every character of a text is taken into its word with its own
/// bytes: every character is in the vocabulary; or there is an unknown token
/// for what the vocabulary does not have, and where bytes stand in for
/// characters no prefix or suffix is added to them.
pub open spec fn keeps_bytes(text: Seq<char>, lex: Lexicon) -> bool {
    all_in_vocab(text, lex) || (lex.unk_token is Some && (lex.byte_fallback ==> lex.prefix is None
        && lex.suffix is None))
}

/// The symbols of a draft with the one that is held back sum to what the
/// draft accounts for.
pub proof fn lemma_flushed_len(d: Draft)
    ensures
        items_len(flushed(d)) == draft_len(d),
{
    match d.unk {
        Some(u) => {
            assert(flushed(d).drop_last() =~= d.items);
            assert(flushed(d).last() == u);
        },
        None => {},
    }
}

/// A draft that has not failed accounts for the bytes of the characters
/// that it has taken in.
pub proof fn lemma_draft_len(text: Seq<char>, n: int, lex: Lexicon)
    requires
        0 <= n <= text.len(),
        keeps_bytes(text, lex),
        encode_utf8(text).len() <= usize::MAX,
        !draft_upto(text, n, lex).failed,
    ensures
        draft_len(draft_upto(text, n, lex)) == encode_utf8(text.take(n)).len(),
    decreases n,
{
    if n == 0 {
        assert(text.take(0) =~= Seq::<char>::empty());
        assert(encode_utf8(Seq::<char>::empty()).len() == 0);
    } else {
        let d = draft_upto(text, n - 1, lex);
        let c = text[n - 1];
        let e = draft_step(d, c, n == 1, n == text.len(), lex);
        assert(draft_upto(text, n, lex) == e);
        assert(!d.failed);
        lemma_draft_len(text, n - 1, lex);
        lemma_items_count(d.items);
        lemma_encode_one(c);
        assert(text.take(n) =~= text.take(n - 1) + seq![c]);
        lemma_encode_concat(text.take(n - 1), seq![c]);
        assert(text =~= text.take(n) + text.skip(n));
        lemma_encode_concat(text.take(n), text.skip(n));
        let s = surface(c, n == 1, n == text.len(), lex);
        if lex.vocab.contains_key(s) {
            match d.unk {
                Some(u) => {
                    let flushed = d.items.push(u);
                    assert(flushed.drop_last() =~= d.items);
                    assert(flushed.last() == u);
                    assert(items_len(flushed) == items_len(d.items) + u.1);
                    assert(e.items.drop_last() =~= flushed);
                    assert(e.items.last().1 == utf8_len(c));
                    assert(items_len(e.items) == items_len(flushed) + utf8_len(c));
                },
                None => {
                    assert(e.items.drop_last() =~= d.items);
                    assert(e.items.last().1 == utf8_len(c));
                    assert(items_len(e.items) == items_len(d.items) + utf8_len(c));
                },
            }
            assert(draft_len(e) == draft_len(d) + utf8_len(c));
        } else if lex.byte_fallback && byte_ids(encode_utf8(s), lex.vocab) is Some {
            let ids = byte_ids(encode_utf8(s), lex.vocab)->0;
            lemma_byte_ids_len(encode_utf8(s), lex.vocab);
            lemma_byte_items_len(ids);
            lemma_flushed_len(d);
            lemma_items_len_concat(flushed(d), byte_items(ids));
            assert(!lex.vocab.contains_key(surface_at(text, n - 1, lex)));
            assert(s =~= seq![c]);
            assert(draft_len(e) == draft_len(d) + utf8_len(c));
        } else {
            assert(!lex.vocab.contains_key(surface_at(text, n - 1, lex)));
            match d.unk {
                Some(u) => {
                    if !lex.fuse_unk {
                        assert(e.items.drop_last() =~= d.items);
                    }
                },
                None => {},
            }
            assert(draft_len(e) == draft_len(d) + utf8_len(c));
        }
    }
}

/// Where no split is replayed and every character is taken in with its own
/// bytes, the lengths of the symbols of an encoded word sum to the byte
/// length of the word, and their offsets lie end to end from zero.
pub proof fn lemma_encoded_word_covers_text(
    text: Seq<char>,
    lex: Lexicon,
    merges: Map<Pair, MergeEntries>,
)
    requires
        keeps_bytes(text, lex),
        encode_utf8(text).len() <= isize::MAX,
        initial_items(text, lex) is Some,
    ensures
        encoded_word(text, lex, merges, Map::empty()) matches Some(w) && total_len(w)
            == encode_utf8(text).len() && offsets_tile(w),
{
    let d = draft_upto(text, text.len() as int, lex);
    let items = initial_items(text, lex)->0;
    lemma_draft_len(text, text.len() as int, lex);
    assert(text.take(text.len() as int) =~= text);
    match d.unk {
        Some(u) => {
            assert(items.drop_last() =~= d.items);
        },
        None => {},
    }
    assert(items_len(items) == encode_utf8(text).len());
    lemma_draft_has_bytes(text, text.len() as int, lex);
    assert forall|i: int| 0 <= i < items.len() implies (#[trigger] items[i]).1 >= 1 by {
        if i < d.items.len() {
            assert(items[i] == d.items[i]);
        }
    }
    lemma_items_no_more_than_bytes(items);
    lemma_chain_length(items);
    lemma_replayed_keeps_length(chain_of(items), merges);
    lemma_offsets_tile(replayed(chain_of(items), merges, Map::empty()));
}

/// A summed length is not negative.
pub proof fn lemma_items_count(items: Seq<Item>)
    ensures
        items_len(items) >= 0,
    decreases items.len(),
{
    if items.len() > 0 {
        lemma_items_count(items.drop_last());
    }
}

/// Every item has at least one byte.
pub open spec fn items_have_bytes(items: Seq<Item>) -> bool {
    forall|i: int| 0 <= i < items.len() ==> (#[trigger] items[i]).1 >= 1
}

/// Items of at least one byte each are no more than their bytes.
pub proof fn lemma_items_no_more_than_bytes(items: Seq<Item>)
    requires
        items_have_bytes(items),
    ensures
        items.len() <= items_len(items),
    decreases items.len(),
{
    if items.len() > 0 {
        assert forall|i: int| 0 <= i < items.drop_last().len() implies (
        #[trigger] items.drop_last()[i]).1 >= 1 by {
            assert(items.drop_last()[i] == items[i]);
        }
        lemma_items_no_more_than_bytes(items.drop_last());
        assert(items.last() == items[items.len() - 1]);
    }
}

/// Every symbol of a draft has at least one byte.
pub proof fn lemma_draft_has_bytes(text: Seq<char>, n: int, lex: Lexicon)
    requires
        0 <= n <= text.len(),
        keeps_bytes(text, lex),
        encode_utf8(text).len() <= usize::MAX,
        !draft_upto(text, n, lex).failed,
    ensures
        items_have_bytes(draft_upto(text, n, lex).items),
        draft_upto(text, n, lex).unk matches Some(u) ==> u.1 >= 1,
    decreases n,
{
    if n > 0 {
        let d = draft_upto(text, n - 1, lex);
        let c = text[n - 1];
        let e = draft_step(d, c, n == 1, n == text.len(), lex);
        assert(draft_upto(text, n, lex) == e);
        lemma_draft_has_bytes(text, n - 1, lex);
        lemma_draft_len(text, n - 1, lex);
        lemma_items_count(d.items);
        lemma_encode_one(c);
        assert(text.take(n) =~= text.take(n - 1) + seq![c]);
        lemma_encode_concat(text.take(n - 1), seq![c]);
        assert(text =~= text.take(n) + text.skip(n));
        lemma_encode_concat(text.take(n), text.skip(n));
        assert forall|i: int| 0 <= i < e.items.len() implies (#[trigger] e.items[i]).1 >= 1 by {
            if i < d.items.len() {
                assert(e.items[i] == d.items[i]);
            }
        }
    }
}

/// A draft accounts for no more bytes than the strings of its characters
/// can have.
pub proof fn lemma_draft_bound(text: Seq<char>, n: int, lex: Lexicon)
    requires
        0 <= n <= text.len(),
        word_budget(text.len() as int, lex) <= isize::MAX,
    ensures
        0 <= draft_len(draft_upto(text, n, lex)) <= n * per_char(lex),
    decreases n,
{
    let pc = per_char(lex);
    if n == 0 {
        assert(0 * pc == 0);
    } else {
        let d = draft_upto(text, n - 1, lex);
        let c = text[n - 1];
        let e = draft_step(d, c, n == 1, n == text.len(), lex);
        assert(draft_upto(text, n, lex) == e);
        lemma_draft_bound(text, n - 1, lex);
        lemma_items_count(d.items);
        lemma_items_count(e.items);
        lemma_encode_one(c);
        assert(n * pc == (n - 1) * pc + pc) by (nonlinear_arith);
        assert(n * pc <= text.len() * pc) by (nonlinear_arith)
            requires
                n <= text.len(),
                pc >= 0,
        ;
        let s = surface(c, n == 1, n == text.len(), lex);
        if d.failed {
        } else if lex.vocab.contains_key(s) {
            match d.unk {
                Some(u) => {
                    let flushed = d.items.push(u);
                    assert(flushed.drop_last() =~= d.items);
                    assert(flushed.last() == u);
                    assert(items_len(flushed) == items_len(d.items) + u.1);
                    assert(e.items.drop_last() =~= flushed);
                    assert(e.items.last().1 == utf8_len(c));
                    assert(items_len(e.items) == items_len(flushed) + utf8_len(c));
                },
                None => {
                    assert(e.items.drop_last() =~= d.items);
                    assert(e.items.last().1 == utf8_len(c));
                    assert(items_len(e.items) == items_len(d.items) + utf8_len(c));
                },
            }
        } else if lex.byte_fallback && byte_ids(encode_utf8(s), lex.vocab) is Some {
            let ids = byte_ids(encode_utf8(s), lex.vocab)->0;
            lemma_byte_ids_len(encode_utf8(s), lex.vocab);
            lemma_byte_items_len(ids);
            lemma_flushed_len(d);
            lemma_items_len_concat(flushed(d), byte_items(ids));
            lemma_surface_bytes(c, n == 1, n == text.len(), lex);
        } else {
            match (lex.unk_token, d.unk) {
                (Some(t), Some(u)) => {
                    if !lex.fuse_unk && lex.vocab.contains_key(t) {
                        assert(e.items.drop_last() =~= d.items);
                        assert(e.items.last() == u);
                    }
                },
                _ => {},
            }
        }
    }
}

/// The string of a character has no more bytes than the bound for it.
pub proof fn lemma_surface_bytes(c: char, is_first: bool, is_last: bool, lex: Lexicon)
    ensures
        encode_utf8(surface(c, is_first, is_last, lex)).len() <= per_char(lex),
{
    let head = if is_first {
        Seq::empty()
    } else {
        text_or_empty(lex.prefix)
    };
    let tail = if is_last {
        text_or_empty(lex.suffix)
    } else {
        Seq::empty()
    };
    lemma_encode_concat(head + seq![c], tail);
    lemma_encode_concat(head, seq![c]);
    lemma_encode_one(c);
    assert(encode_utf8(Seq::<char>::empty()).len() == 0);
}

/// Where the table of splits is empty, the summed length of an encoded word
/// fits as soon as the bound on its symbols does.
pub proof fn lemma_lengths_fit_without_splits(
    text: Seq<char>,
    lex: Lexicon,
    merges: Map<Pair, MergeEntries>,
)
    requires
        word_budget(text.len() as int, lex) <= isize::MAX,
    ensures
        encoded_word(text, lex, merges, Map::empty()) matches Some(w) ==> 0 <= total_len(w)
            <= isize::MAX,
{
    match initial_items(text, lex) {
        Some(items) => {
            let d = draft_upto(text, text.len() as int, lex);
            lemma_draft_bound(text, text.len() as int, lex);
            match d.unk {
                Some(u) => {
                    assert(items.drop_last() =~= d.items);
                    assert(items.last() == u);
                },
                None => {},
            }
            lemma_initial_items_count(text, text.len() as int, lex);
            lemma_chain_length(items);
            lemma_replayed_keeps_length(chain_of(items), merges);
        },
        None => {},
    }
}

/// A draft has no more symbols than the bound on the symbols of its
/// characters.
pub proof fn lemma_initial_items_count(text: Seq<char>, n: int, lex: Lexicon)
    requires
        0 <= n <= text.len(),
        word_budget(text.len() as int, lex) <= isize::MAX,
    ensures
        draft_upto(text, n, lex).items.len() + held(draft_upto(text, n, lex).unk) <= n * per_char(
            lex,
        ),
    decreases n,
{
    let pc = per_char(lex);
    if n == 0 {
        assert(0 * pc == 0);
    } else {
        let d = draft_upto(text, n - 1, lex);
        let c = text[n - 1];
        let e = draft_step(d, c, n == 1, n == text.len(), lex);
        assert(draft_upto(text, n, lex) == e);
        lemma_initial_items_count(text, n - 1, lex);
        assert(n * pc == (n - 1) * pc + pc) by (nonlinear_arith);
        let s = surface(c, n == 1, n == text.len(), lex);
        if !d.failed && !lex.vocab.contains_key(s) && lex.byte_fallback && byte_ids(
            encode_utf8(s),
            lex.vocab,
        ) is Some {
            lemma_byte_ids_len(encode_utf8(s), lex.vocab);
            lemma_surface_bytes(c, n == 1, n == text.len(), lex);
        }
    }
}

/// Where the table of splits is empty, a word is too large to be encoded
/// only where it could have more symbols than can be counted.
pub proof fn lemma_too_large_without_splits(model: &PBPE, text: Seq<char>)
    requires
        model.splits_map() == Map::<u32, SplitEntries>::empty(),
    ensures
        model.too_large(text) == (word_budget(text.len() as int, model.lexicon()) > isize::MAX),
{
    if word_budget(text.len() as int, model.lexicon()) <= isize::MAX {
        lemma_lengths_fit_without_splits(text, model.lexicon(), model.merges_map());
    }
}

} // verus!
