//! What encoding promises of the tokens of a word: they spell the word, they
//! cover its bytes, and they are the tokens of what they spell.

use crate::decoding::{
    all_in_vocab, faces, lemma_decoding_gives_text, lemma_seen, merges_spell, slot_text, spelled,
    splits_spell, surface_at, without_suffix,
};
use crate::lengths::{keeps_bytes, lemma_encoded_word_covers_text, lemma_offsets_tile};
use crate::model::{
    draft_upto, encoded_word, surface, text_or_empty, tokens_of, Draft, Item, Lexicon, TokenView,
    PBPE,
};
use crate::replay::{live_symbols, replay_run, seeds, EventView, Replay};
use crate::spans::{lemma_encoded_word_covers_plain_text, one_byte_each};
use crate::tables::{MergeEntries, SplitEntries};
use crate::text::utf8_len;
use crate::training::strip_prefix;
use crate::word::{chain_of, lemma_total_len_prefix, offsets_of, total_len, Pair, Symbol};
use vstd::prelude::*;
use vstd::utf8::*;

verus! {

/// The text that tokens spell: the string of the first, then the strings of
/// the others without the continuing prefix.
pub open spec fn text_of_tokens(tokens: Seq<TokenView>, prefix: Option<Seq<char>>) -> Seq<char>
    decreases tokens.len(),
{
    if tokens.len() == 0 {
        Seq::empty()
    } else if tokens.len() == 1 {
        tokens[0].value
    } else {
        text_of_tokens(tokens.drop_last(), prefix) + strip_prefix(tokens.last().value, prefix)
    }
}

/// The word that tokens stand for: the text that they spell, without the
/// end-of-word suffix.
pub open spec fn decoded_text(
    tokens: Seq<TokenView>,
    prefix: Option<Seq<char>>,
    suffix: Option<Seq<char>>,
) -> Seq<char> {
    without_suffix(text_of_tokens(tokens, prefix), suffix)
}

/// The bytes that tokens cover, summed.
pub open spec fn covered(tokens: Seq<TokenView>) -> int
    decreases tokens.len(),
{
    if tokens.len() == 0 {
        0
    } else {
        covered(tokens.drop_last()) + (tokens.last().offsets.1 - tokens.last().offsets.0)
    }
}

/// Whether tokens cover `n` bytes end to end: they cover `n` bytes in all,
/// the first begins at zero, and each begins where the one before it ends.
pub open spec fn tokens_tile(tokens: Seq<TokenView>, n: int) -> bool {
    &&& covered(tokens) == n
    &&& tokens.len() > 0 ==> tokens[0].offsets.0 == 0
    &&& forall|i: int|
        0 <= i < tokens.len() - 1 ==> (#[trigger] tokens[i]).offsets.1 == tokens[i + 1].offsets.0
}

/// Whether the strings of the tokens of a model are those that decoding
/// expects: the reversed vocabulary leads back from every id of the
/// vocabulary, every merged token is spelled as its two parents in a row, and
/// every split token as its pieces in a row, one character each.
pub open spec fn spells_its_tokens(m: &PBPE) -> bool {
    &&& forall|k: Seq<char>| #[trigger]
        m.vocab_map().contains_key(k) ==> m.vocab_r_map()[m.vocab_map()[k]] == k
    &&& merges_spell(m.merges_map(), m.vocab_r_map(), m.lexicon().prefix)
    &&& splits_spell(m.splits_map(), m.vocab_r_map(), m.lexicon().prefix)
}

/// No slot of a word without its consumed slots is consumed.
pub proof fn lemma_live_symbols_are_live(s: Seq<Symbol>)
    ensures
        forall|i: int| 0 <= i < live_symbols(s).len() ==> (#[trigger] live_symbols(s)[i]).len != 0,
    decreases s.len(),
{
    if s.len() > 0 {
        lemma_live_symbols_are_live(s.drop_last());
        let head = live_symbols(s.drop_last());
        assert forall|i: int| 0 <= i < live_symbols(s).len() implies (#[trigger] live_symbols(
            s,
        )[i]).len != 0 by {
            if i < head.len() {
                assert(live_symbols(s)[i] == head[i]);
            }
        }
    }
}

/// The tokens of the first `n` symbols of a word without consumed slots
/// spell what the symbols decode to.
pub proof fn lemma_tokens_spell_the_word(
    w: Seq<Symbol>,
    vocab_r: Map<u32, Seq<char>>,
    prefix: Option<Seq<char>>,
    n: int,
)
    requires
        0 <= n <= w.len(),
        forall|i: int| 0 <= i < w.len() ==> (#[trigger] w[i]).len != 0,
    ensures
        text_of_tokens(tokens_of(w, vocab_r).take(n), prefix) == spelled(
            faces(w).take(n),
            false,
            vocab_r,
            prefix,
        ),
    decreases n,
{
    let tokens = tokens_of(w, vocab_r).take(n);
    let f = faces(w).take(n);
    if n > 0 {
        lemma_tokens_spell_the_word(w, vocab_r, prefix, n - 1);
        assert(tokens.drop_last() =~= tokens_of(w, vocab_r).take(n - 1));
        assert(f.drop_last() =~= faces(w).take(n - 1));
        assert(f.last() == (w[n - 1].c, w[n - 1].len));
        assert(tokens.last().value == vocab_r[w[n - 1].c]);
        assert(w[0].len != 0);
        lemma_seen(faces(w), n - 1);
        if n == 1 {
            assert(spelled(f.drop_last(), false, vocab_r, prefix) =~= Seq::<char>::empty());
            assert(spelled(f, false, vocab_r, prefix) =~= slot_text(
                f.last(),
                false,
                vocab_r,
                prefix,
            ));
        }
    }
}

/// The tokens of a word whose summed length fits cover its bytes end to end.
pub proof fn lemma_tokens_tile_the_word(w: Seq<Symbol>, vocab_r: Map<u32, Seq<char>>)
    requires
        total_len(w) <= usize::MAX,
    ensures
        tokens_tile(tokens_of(w, vocab_r), total_len(w)),
{
    let tokens = tokens_of(w, vocab_r);
    lemma_offsets_tile(w);
    assert forall|i: int| 0 <= i < w.len() implies (#[trigger] tokens[i]).offsets.0 == offsets_of(
        w,
    )[i].0 && tokens[i].offsets.1 == offsets_of(w)[i].1 by {
        lemma_total_len_prefix(w, i);
        lemma_total_len_prefix(w, i + 1);
        assert(w.take(i + 1).drop_last() =~= w.take(i));
    }
    lemma_covered(w, vocab_r, w.len() as int);
    assert(tokens.take(w.len() as int) =~= tokens);
    assert(w.take(w.len() as int) =~= w);
    assert forall|i: int| 0 <= i < tokens.len() - 1 implies (#[trigger] tokens[i]).offsets.1
        == tokens[i + 1].offsets.0 by {
        assert(offsets_of(w)[i].1 == offsets_of(w)[i + 1].0);
    }
}

/// The tokens of the first `n` symbols of a word whose summed length fits
/// cover as many bytes as the symbols are long.
pub proof fn lemma_covered(w: Seq<Symbol>, vocab_r: Map<u32, Seq<char>>, n: int)
    requires
        0 <= n <= w.len(),
        total_len(w) <= usize::MAX,
    ensures
        covered(tokens_of(w, vocab_r).take(n)) == total_len(w.take(n)),
    decreases n,
{
    if n > 0 {
        lemma_covered(w, vocab_r, n - 1);
        let tokens = tokens_of(w, vocab_r).take(n);
        assert(tokens.drop_last() =~= tokens_of(w, vocab_r).take(n - 1));
        assert(w.take(n).drop_last() =~= w.take(n - 1));
        lemma_total_len_prefix(w, n - 1);
        lemma_total_len_prefix(w, n);
    } else {
        assert(w.take(0) =~= Seq::<Symbol>::empty());
    }
}

/// The tokens of a word spell the word. This holds of a word that is not
/// empty and not a token by itself where merges are ignored, in a model with
/// a faithful cache whose tokens are spelled as decoding expects, where every
/// character of the word is in the vocabulary.
pub proof fn lemma_tokens_spell_the_text(m: &PBPE, text: Seq<char>)
    requires
        0 < text.len() <= isize::MAX,
        !(m.ignore_merges && m.vocab_map().contains_key(text)),
        m.cache_is_faithful(),
        all_in_vocab(text, m.lexicon()),
        spells_its_tokens(m),
    ensures
        m.tokens_for(text) matches Some(tokens) && text_of_tokens(tokens, m.lexicon().prefix)
            == text + text_or_empty(m.lexicon().suffix) && decoded_text(
            tokens,
            m.lexicon().prefix,
            m.lexicon().suffix,
        ) == text,
{
    let lex = m.lexicon();
    lemma_decoding_gives_text(text, lex, m.merges_map(), m.splits_map(), m.vocab_r_map());
    let w = encoded_word(text, lex, m.merges_map(), m.splits_map())->0;
    assert(m.word_of(text) == Some(w));
    let items = crate::model::initial_items(text, lex)->0;
    let s = crate::word::chain_of(items);
    lemma_live_symbols_are_live(
        replay_run(
            Replay { syms: s, queue: seeds(s, m.merges_map(), s.len() - 1) },
            m.merges_map(),
            m.splits_map(),
        ),
    );
    lemma_tokens_spell_the_word(w, m.vocab_r_map(), lex.prefix, w.len() as int);
    assert(tokens_of(w, m.vocab_r_map()).take(w.len() as int) =~= tokens_of(w, m.vocab_r_map()));
    assert(faces(w).take(w.len() as int) =~= faces(w));
}

/// Encoding the word that tokens stand for gives the same tokens again,
/// under the conditions under which the tokens of a word spell the word.
pub proof fn lemma_encoding_again_gives_the_same(m: &PBPE, text: Seq<char>)
    requires
        0 < text.len() <= isize::MAX,
        !(m.ignore_merges && m.vocab_map().contains_key(text)),
        m.cache_is_faithful(),
        all_in_vocab(text, m.lexicon()),
        spells_its_tokens(m),
    ensures
        m.tokens_for(text) matches Some(tokens) && m.tokens_for(
            decoded_text(tokens, m.lexicon().prefix, m.lexicon().suffix),
        ) == Some(tokens),
{
    lemma_tokens_spell_the_text(m, text);
}

/// The tokens of a word cover its bytes end to end, in a model with a
/// faithful cache and without splits that takes in every character with its
/// own bytes.
pub proof fn lemma_tokens_cover_the_text(m: &PBPE, text: Seq<char>)
    requires
        encode_utf8(text).len() <= isize::MAX,
        m.cache_is_faithful(),
        m.splits_map() == Map::<u32, SplitEntries>::empty(),
        keeps_bytes(text, m.lexicon()),
    ensures
        m.tokens_for(text) matches Some(tokens) ==> tokens_tile(
            tokens,
            encode_utf8(text).len() as int,
        ),
{
    match m.tokens_for(text) {
        Some(tokens) => {
            if text.len() == 0 {
                assert(encode_utf8(text).len() == 0);
            } else if m.ignore_merges && m.vocab_map().contains_key(text) {
                lemma_one_token_tiles(tokens);
            } else {
                lemma_encoded_word_covers_text(text, m.lexicon(), m.merges_map());
                let w = m.word_of(text)->0;
                lemma_tokens_tile_the_word(w, m.vocab_r_map());
            }
        },
        None => {},
    }
}

/// The tokens of a word of one-byte characters cover its bytes end to end
/// also where tokens are split, under the conditions under which the tokens
/// of a word spell the word.
pub proof fn lemma_tokens_cover_the_plain_text(m: &PBPE, text: Seq<char>)
    requires
        text.len() <= isize::MAX,
        one_byte_each(text),
        m.cache_is_faithful(),
        all_in_vocab(text, m.lexicon()),
        spells_its_tokens(m),
    ensures
        m.tokens_for(text) matches Some(tokens) ==> tokens_tile(
            tokens,
            encode_utf8(text).len() as int,
        ),
{
    match m.tokens_for(text) {
        Some(tokens) => {
            if text.len() == 0 {
                assert(encode_utf8(text).len() == 0);
            } else if m.ignore_merges && m.vocab_map().contains_key(text) {
                crate::spans::lemma_one_byte_text(text);
                lemma_one_token_tiles(tokens);
            } else {
                crate::spans::lemma_one_byte_text(text);
                lemma_encoded_word_covers_plain_text(
                    text,
                    m.lexicon(),
                    m.merges_map(),
                    m.splits_map(),
                    m.vocab_r_map(),
                );
                let w = m.word_of(text)->0;
                lemma_tokens_tile_the_word(w, m.vocab_r_map());
            }
        },
        None => {},
    }
}

/// One token that begins at zero covers the bytes up to its end.
pub proof fn lemma_one_token_tiles(tokens: Seq<TokenView>)
    requires
        tokens.len() == 1,
        tokens[0].offsets.0 == 0,
    ensures
        tokens_tile(tokens, tokens[0].offsets.1 as int),
{
    assert(tokens.drop_last() =~= Seq::<TokenView>::empty());
    assert(covered(tokens.drop_last()) == 0);
    assert(tokens.last() == tokens[0]);
}

/// Every token of a word has the string of its id, in a model whose
/// reversed vocabulary leads back from every id of the vocabulary.
pub proof fn lemma_tokens_have_their_strings(m: &PBPE, text: Seq<char>)
    requires
        forall|k: Seq<char>| #[trigger]
            m.vocab_map().contains_key(k) ==> m.vocab_r_map()[m.vocab_map()[k]] == k,
    ensures
        m.tokens_for(text) matches Some(tokens) ==> forall|i: int|
            0 <= i < tokens.len() ==> (#[trigger] tokens[i]).value == m.vocab_r_map()[tokens[i].id],
{
}

/// Whether the encoder leaves out the characters that have no token and
/// adds nothing to those that have one: there is no unknown token, no byte
/// fallback, no prefix and no suffix.
pub open spec fn leaves_out(lex: Lexicon) -> bool {
    lex.unk_token is None && !lex.byte_fallback && lex.prefix is None && lex.suffix is None
}

/// Those of the first `n` characters of a text that have a token.
pub open spec fn kept(text: Seq<char>, vocab: Map<Seq<char>, u32>, n: int) -> Seq<char>
    decreases n,
{
    if n <= 0 {
        Seq::empty()
    } else if vocab.contains_key(seq![text[n - 1]]) {
        kept(text, vocab, n - 1).push(text[n - 1])
    } else {
        kept(text, vocab, n - 1)
    }
}

/// The symbols of those of the first `n` characters of a text that have a
/// token: for each its token and its byte length.
pub open spec fn kept_items(text: Seq<char>, vocab: Map<Seq<char>, u32>, n: int) -> Seq<Item>
    decreases n,
{
    if n <= 0 {
        Seq::empty()
    } else if vocab.contains_key(seq![text[n - 1]]) {
        kept_items(text, vocab, n - 1).push(
            (vocab[seq![text[n - 1]]], utf8_len(text[n - 1]) as usize),
        )
    } else {
        kept_items(text, vocab, n - 1)
    }
}

/// Where characters without a token are left out, a draft holds the symbols
/// of the characters that have one.
pub proof fn lemma_draft_of_kept(text: Seq<char>, lex: Lexicon, n: int)
    requires
        0 <= n <= text.len(),
        leaves_out(lex),
    ensures
        draft_upto(text, n, lex) == (Draft {
            items: kept_items(text, lex.vocab, n),
            unk: None,
            failed: false,
        }),
    decreases n,
{
    if n > 0 {
        lemma_draft_of_kept(text, lex, n - 1);
        let c = text[n - 1];
        assert(surface(c, n == 1, n == text.len(), lex) =~= seq![c]);
    }
}

/// The characters that are kept are no more than the characters, each has a
/// token, and their symbols are those of the text.
pub proof fn lemma_kept(text: Seq<char>, vocab: Map<Seq<char>, u32>, n: int)
    requires
        0 <= n <= text.len(),
    ensures
        kept(text, vocab, n).len() <= n,
        forall|i: int|
            0 <= i < kept(text, vocab, n).len() ==> vocab.contains_key(
                seq![#[trigger] kept(text, vocab, n)[i]],
            ),
        kept_items(kept(text, vocab, n), vocab, kept(text, vocab, n).len() as int) == kept_items(
            text,
            vocab,
            n,
        ),
    decreases n,
{
    if n > 0 {
        lemma_kept(text, vocab, n - 1);
        let before = kept(text, vocab, n - 1);
        let all = kept(text, vocab, n);
        if vocab.contains_key(seq![text[n - 1]]) {
            assert forall|i: int| 0 <= i < all.len() implies vocab.contains_key(
                seq![#[trigger] all[i]],
            ) by {
                if i < before.len() {
                    assert(all[i] == before[i]);
                }
            }
            lemma_kept_items_prefix(all, before, vocab, before.len() as int);
        }
    }
}

/// The symbols of the first `n` characters are the same for two texts that
/// have the same first `n` characters.
pub proof fn lemma_kept_items_prefix(a: Seq<char>, b: Seq<char>, vocab: Map<Seq<char>, u32>, n: int)
    requires
        0 <= n <= a.len(),
        n <= b.len(),
        forall|i: int| 0 <= i < n ==> a[i] == b[i],
    ensures
        kept_items(a, vocab, n) == kept_items(b, vocab, n),
    decreases n,
{
    if n > 0 {
        lemma_kept_items_prefix(a, b, vocab, n - 1);
    }
}

/// Where characters without a token are left out, a text is encoded as the
/// text of its characters that have a token.
pub proof fn lemma_encoded_as_kept(
    text: Seq<char>,
    lex: Lexicon,
    merges: Map<Pair, MergeEntries>,
    splits: Map<u32, SplitEntries>,
)
    requires
        leaves_out(lex),
    ensures
        encoded_word(text, lex, merges, splits) == encoded_word(
            kept(text, lex.vocab, text.len() as int),
            lex,
            merges,
            splits,
        ),
        encoded_word(text, lex, merges, splits) is Some,
{
    let k = kept(text, lex.vocab, text.len() as int);
    lemma_draft_of_kept(text, lex, text.len() as int);
    lemma_draft_of_kept(k, lex, k.len() as int);
    lemma_kept(text, lex.vocab, text.len() as int);
}

/// Encoding the word that tokens stand for gives the same tokens again,
/// also where characters without a token are left out: in a model without
/// unknown token, byte fallback, prefix and suffix, with a faithful cache,
/// whose tokens are spelled as decoding expects, for a word that is a token
/// by itself or for which merges are not ignored.
pub proof fn lemma_encoding_again_gives_the_same_where_characters_are_left_out(
    m: &PBPE,
    text: Seq<char>,
)
    requires
        text.len() <= isize::MAX,
        leaves_out(m.lexicon()),
        !m.ignore_merges || m.vocab_map().contains_key(text),
        m.cache_is_faithful(),
        spells_its_tokens(m),
    ensures
        m.tokens_for(text) matches Some(tokens) && m.tokens_for(
            decoded_text(tokens, m.lexicon().prefix, m.lexicon().suffix),
        ) == Some(tokens),
{
    let lex = m.lexicon();
    let k = kept(text, lex.vocab, text.len() as int);
    if text.len() == 0 {
    } else if m.ignore_merges && m.vocab_map().contains_key(text) {
        let tokens = m.tokens_for(text)->0;
        assert(tokens[0].value == text);
    } else {
        lemma_encoded_as_kept(text, lex, m.merges_map(), m.splits_map());
        lemma_kept(text, lex.vocab, text.len() as int);
        assert(m.word_of(text) == m.fresh_word(text));
        if k.len() == 0 {
            let w = m.fresh_word(text)->0;
            lemma_draft_of_kept(text, lex, text.len() as int);
            let none = chain_of(Seq::<Item>::empty());
            assert(none =~= Seq::<Symbol>::empty());
            assert(seeds(none, m.merges_map(), none.len() - 1) =~= Seq::<EventView>::empty());
            assert(live_symbols(none) =~= Seq::<Symbol>::empty());
            assert(w =~= Seq::<Symbol>::empty());
            let tokens = tokens_of(w, m.vocab_r_map());
            assert(tokens =~= Seq::<TokenView>::empty());
        } else {
            assert forall|i: int| 0 <= i < k.len() implies lex.vocab.contains_key(
                #[trigger] surface_at(k, i, lex),
            ) by {
                assert(lex.vocab.contains_key(seq![k[i]]));
                assert(surface_at(k, i, lex) =~= seq![k[i]]);
            }
            lemma_tokens_spell_the_text(m, k);
            assert(m.word_of(k) == m.fresh_word(k));
        }
    }
}

} // verus!
