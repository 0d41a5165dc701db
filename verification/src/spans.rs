//! Byte lengths where tokens are split.
//!
//! A split gives each of its pieces the length one. Where every character of
//! a word has one byte and every split token is spelled as its pieces in a
//! row, one character each, the symbols of the encoded word still cover the
//! bytes of the word.

use crate::decoding::{
    all_in_vocab, keeps_text, lemma_chain_links_live, lemma_plain_aligned, lemma_plain_draft,
    lemma_plain_text, lemma_split_fits, lemma_step_keeps_text, links_live, merges_spell,
    plain_items, splits_spell,
};
use crate::lengths::{
    lemma_live_keeps_length, lemma_merge_keeps_sum, lemma_offsets_tile, lemma_same_lens,
    offsets_tile,
};
use crate::model::{encoded_word, initial_items, text_or_empty, Lexicon};
use crate::replay::{
    apply_merge, apply_split, first_event, lemma_first_event, lemma_step_decreases,
    live_symbols, lowest_count, merge_fires, rank_room, relinked, replay_run, replay_step,
    seeds, split_fires, EventView, Replay,
};
use crate::tables::{MergeEntries, SplitEntries};
use crate::text::{lemma_encode_concat, lemma_encode_one, utf8_len};
use crate::word::{chain_of, total_len, Pair, Symbol};
use vstd::prelude::*;
use vstd::utf8::*;

verus! {

/// Whether every character of a text has one byte.
pub open spec fn one_byte_each(text: Seq<char>) -> bool {
    forall|i: int| 0 <= i < text.len() ==> utf8_len(#[trigger] text[i]) == 1
}

/// Whether every live slot but the last of its chain is as long as it is
/// wide.
pub open spec fn long_as_wide(s: Seq<Symbol>) -> bool {
    forall|i: int|
        0 <= i < s.len() && (#[trigger] s[i]).len != 0 && s[i].next != -1 ==> s[i].len == s[i].next
            - i
}

/// Two words in a row have the summed lengths of both.
pub proof fn lemma_total_len_concat(a: Seq<Symbol>, b: Seq<Symbol>)
    ensures
        total_len(a + b) == total_len(a) + total_len(b),
    decreases b.len(),
{
    if b.len() == 0 {
        assert(a + b =~= a);
    } else {
        lemma_total_len_concat(a, b.drop_last());
        assert((a + b).drop_last() =~= a + b.drop_last());
    }
}

/// Slots of length one sum to their number.
pub proof fn lemma_total_len_ones(s: Seq<Symbol>)
    requires
        forall|i: int| 0 <= i < s.len() ==> (#[trigger] s[i]).len == 1,
    ensures
        total_len(s) == s.len(),
    decreases s.len(),
{
    if s.len() > 0 {
        assert forall|i: int| 0 <= i < s.drop_last().len() implies (#[trigger] s.drop_last()[i]).len
            == 1 by {
            assert(s.drop_last()[i] == s[i]);
        }
        lemma_total_len_ones(s.drop_last());
        assert(s.last() == s[s.len() - 1]);
    }
}

/// A slot with consumed slots behind it sums to its own length.
pub proof fn lemma_total_len_head(s: Seq<Symbol>)
    requires
        s.len() > 0,
        forall|i: int| 0 < i < s.len() ==> (#[trigger] s[i]).len == 0,
    ensures
        total_len(s) == s[0].len,
    decreases s.len(),
{
    if s.len() > 1 {
        assert forall|i: int| 0 < i < s.drop_last().len() implies (#[trigger] s.drop_last()[i]).len
            == 0 by {
            assert(s.drop_last()[i] == s[i]);
        }
        lemma_total_len_head(s.drop_last());
        assert(s.last() == s[s.len() - 1]);
        assert(s.drop_last()[0] == s[0]);
    } else {
        assert(s.drop_last() =~= Seq::<Symbol>::empty());
        assert(total_len(s.drop_last()) == 0);
    }
}

/// A merge keeps every live slot as long as it is wide.
pub proof fn lemma_merge_keeps_widths(
    s: Seq<Symbol>,
    pos: int,
    rank: u32,
    new_id: u32,
    merges: Map<Pair, MergeEntries>,
)
    requires
        links_live(s),
        long_as_wide(s),
        merge_fires(s, pos, rank, new_id, merges),
    ensures
        long_as_wide(apply_merge(s, pos, new_id)),
        total_len(apply_merge(s, pos, new_id)) == total_len(s),
{
    let t = apply_merge(s, pos, new_id);
    let next = s[pos].next as int;
    assert(s[pos].len != 0 && s[pos].next != -1);
    assert(pos < next < s.len() && s[next].len != 0);
    lemma_merge_keeps_sum(s, pos, rank, new_id, merges);
    assert forall|i: int|
        0 <= i < t.len() && (#[trigger] t[i]).len != 0 && t[i].next != -1 implies t[i].len
        == t[i].next - i by {
        if i == pos {
            assert(s[next].next != -1);
            assert(s[next].len == s[next].next - next);
        } else if i == next {
        } else {
            assert(t[i].len == s[i].len && t[i].next == s[i].next);
            assert(s[i].len != 0);
        }
    }
}

/// A split over a slot that is as long as the pieces are many keeps every
/// live slot as long as it is wide, and the summed length.
pub proof fn lemma_split_keeps_widths(s: Seq<Symbol>, pos: int, pieces: Seq<u32>)
    requires
        long_as_wide(s),
        0 <= pos < s.len(),
        s[pos].len != 0,
        pieces.len() >= 1,
        s[pos].next == pos + pieces.len(),
        pos + pieces.len() < s.len(),
        forall|j: int| pos < j < pos + pieces.len() ==> (#[trigger] s[j]).len == 0,
    ensures
        long_as_wide(apply_split(s, pos, pieces)),
        total_len(apply_split(s, pos, pieces)) == total_len(s),
{
    let t = apply_split(s, pos, pieces);
    let k = pieces.len() as int;
    assert(s[pos].len == k);
    assert forall|i: int|
        0 <= i < t.len() && (#[trigger] t[i]).len != 0 && t[i].next != -1 implies t[i].len
        == t[i].next - i by {
        if pos <= i < pos + k {
            assert(t[i].next == i + 1);
        } else {
            assert(t[i].len == s[i].len && t[i].next == s[i].next);
        }
    }
    let head = s.take(pos);
    let tail = s.skip(pos + k);
    let old_part = s.subrange(pos, pos + k);
    let new_part = t.subrange(pos, pos + k);
    assert(s =~= head + old_part + tail);
    let joined = head + new_part + tail;
    assert(joined.len() == t.len());
    assert forall|i: int| 0 <= i < t.len() implies (#[trigger] t[i]).len == joined[i].len by {
        if i >= pos + k {
            assert(joined[i] == s[i]);
        }
    }
    lemma_same_lens(t, joined);
    lemma_total_len_concat(head + old_part, tail);
    lemma_total_len_concat(head, old_part);
    lemma_total_len_concat(head + new_part, tail);
    lemma_total_len_concat(head, new_part);
    assert forall|i: int| 0 < i < old_part.len() implies (#[trigger] old_part[i]).len == 0 by {
        assert(s[pos + i].len == 0);
    }
    lemma_total_len_head(old_part);
    assert forall|i: int| 0 <= i < new_part.len() implies (#[trigger] new_part[i]).len == 1 by {
        assert(new_part[i] == t[pos + i]);
    }
    lemma_total_len_ones(new_part);
}

/// A step keeps every live slot as long as it is wide, and the summed
/// length.
pub proof fn lemma_step_keeps_widths(
    st: Replay,
    merges: Map<Pair, MergeEntries>,
    splits: Map<u32, SplitEntries>,
    vocab_r: Map<u32, Seq<char>>,
    prefix: Option<Seq<char>>,
    target: Seq<char>,
)
    requires
        st.queue.len() > 0,
        merges_spell(merges, vocab_r, prefix),
        splits_spell(splits, vocab_r, prefix),
        keeps_text(st.syms, vocab_r, prefix, target),
        long_as_wide(st.syms),
    ensures
        keeps_text(replay_step(st, merges, splits).syms, vocab_r, prefix, target),
        long_as_wide(replay_step(st, merges, splits).syms),
        total_len(replay_step(st, merges, splits).syms) == total_len(st.syms),
{
    lemma_step_keeps_text(st, merges, splits, vocab_r, prefix, target);
    let k = first_event(st.queue);
    lemma_first_event(st.queue);
    let s = st.syms;
    match st.queue[k] {
        EventView::Merge { pos, rank, new_id } => {
            if merge_fires(s, pos as int, rank, new_id, merges) {
                lemma_merge_keeps_widths(s, pos as int, rank, new_id, merges);
            }
        },
        EventView::Split { pos, rank, pieces } => {
            if split_fires(s, pos as int, rank, pieces, splits) {
                lemma_split_fits(s, pos as int, rank, pieces, splits, vocab_r, prefix);
                lemma_split_keeps_widths(s, pos as int, pieces);
            }
        },
    }
}

/// The replay keeps the summed length.
pub proof fn lemma_run_keeps_widths(
    st: Replay,
    merges: Map<Pair, MergeEntries>,
    splits: Map<u32, SplitEntries>,
    vocab_r: Map<u32, Seq<char>>,
    prefix: Option<Seq<char>>,
    target: Seq<char>,
)
    requires
        merges_spell(merges, vocab_r, prefix),
        splits_spell(splits, vocab_r, prefix),
        keeps_text(st.syms, vocab_r, prefix, target),
        long_as_wide(st.syms),
    ensures
        total_len(replay_run(st, merges, splits)) == total_len(st.syms),
    decreases rank_room(st.queue), lowest_count(st.queue),
{
    if st.queue.len() > 0 {
        lemma_step_decreases(st, merges, splits);
        lemma_step_keeps_widths(st, merges, splits, vocab_r, prefix, target);
        lemma_run_keeps_widths(replay_step(st, merges, splits), merges, splits, vocab_r, prefix, target);
    }
}

/// A text of characters of one byte each has as many bytes as characters.
pub proof fn lemma_one_byte_text(text: Seq<char>)
    requires
        one_byte_each(text),
    ensures
        encode_utf8(text).len() == text.len(),
    decreases text.len(),
{
    if text.len() == 0 {
        assert(encode_utf8(text).len() == 0);
    } else {
        let head = text.drop_last();
        assert forall|i: int| 0 <= i < head.len() implies utf8_len(#[trigger] head[i]) == 1 by {
            assert(head[i] == text[i]);
        }
        lemma_one_byte_text(head);
        assert(text =~= head + seq![text.last()]);
        lemma_encode_concat(head, seq![text.last()]);
        lemma_encode_one(text.last());
        assert(utf8_len(text[text.len() - 1]) == 1);
    }
}

/// Where every character of a text has one byte and is in the vocabulary,
/// the reversed vocabulary leads back from every id of the vocabulary, every
/// merged token is spelled as its two parents in a row, and every split token
/// as its pieces in a row, one character each, the lengths of the symbols of
/// the encoded text sum to its byte length, and their offsets lie end to end
/// from zero.
pub proof fn lemma_encoded_word_covers_plain_text(
    text: Seq<char>,
    lex: Lexicon,
    merges: Map<Pair, MergeEntries>,
    splits: Map<u32, SplitEntries>,
    vocab_r: Map<u32, Seq<char>>,
)
    requires
        0 < text.len() <= isize::MAX,
        one_byte_each(text),
        all_in_vocab(text, lex),
        forall|k: Seq<char>| #[trigger]
            lex.vocab.contains_key(k) ==> vocab_r[lex.vocab[k]] == k,
        merges_spell(merges, vocab_r, lex.prefix),
        splits_spell(splits, vocab_r, lex.prefix),
    ensures
        encoded_word(text, lex, merges, splits) matches Some(w) && total_len(w) == encode_utf8(
            text,
        ).len() && offsets_tile(w),
{
    let n = text.len() as int;
    lemma_plain_draft(text, lex, n);
    let items = plain_items(text, lex, n);
    assert(initial_items(text, lex) == Some(items));
    lemma_plain_text(text, lex, vocab_r, n);
    lemma_plain_aligned(text, lex, vocab_r);
    assert forall|i: int| 0 <= i < items.len() implies (#[trigger] items[i]).1 >= 1 by {
        assert(utf8_len(text[i]) == 1);
    }
    lemma_chain_links_live(items);
    let s = chain_of(items);
    assert forall|i: int| 0 <= i < s.len() implies (#[trigger] s[i]).len == 1 by {
        assert(utf8_len(text[i]) == 1);
    }
    lemma_total_len_ones(s);
    lemma_one_byte_text(text);
    let target = text.take(n) + text_or_empty(lex.suffix);
    let st = Replay { syms: s, queue: seeds(s, merges, s.len() - 1) };
    lemma_run_keeps_widths(st, merges, splits, vocab_r, lex.prefix, target);
    let w = replay_run(st, merges, splits);
    lemma_live_keeps_length(w);
    lemma_same_lens(relinked(live_symbols(w)), live_symbols(w));
    lemma_offsets_tile(encoded_word(text, lex, merges, splits)->0);
}

} // verus!
