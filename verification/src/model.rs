//! The model: vocabulary, trained tables and options, and the encoder that
//! turns a word into tokens with byte offsets.

use crate::cache::Cache;
use crate::replay::{ids_within, merges_within, replayed, splits_within};
use crate::strmap::StrMap;
use crate::tables::{MergeEntries, MergeMap, SplitEntries, SplitMap};
use crate::text::{
    byte_token, byte_token_text, char_len, chars_of_str, copy_string, lemma_encode_concat,
    lemma_encode_one, utf8_len,
};
use crate::word::{chain_of, lemma_added_chain, offsets_of, total_len, Pair, Symbol, Word};
use std::collections::HashMap;
use vstd::prelude::*;
use vstd::string::*;
use vstd::utf8::*;

verus! {

broadcast use vstd::std_specs::hash::group_hash_axioms;

/// Token string to id.
pub type Vocab = StrMap<u32>;

/// How many words a cache holds unless told otherwise.
pub const DEFAULT_CACHE_CAPACITY: usize = 10_000;

/// One token of an encoded word: its id, its string, and the bytes of the
/// word that it covers.
#[derive(Debug, PartialEq, Eq)]
pub struct Token {
    pub id: u32,
    pub value: String,
    pub offsets: (usize, usize),
}

/// A token as a mathematical value.
pub struct TokenView {
    pub id: u32,
    pub value: Seq<char>,
    pub offsets: (usize, usize),
}

impl View for Token {
    type V = TokenView;

    open spec fn view(&self) -> TokenView {
        TokenView { id: self.id, value: self.value@, offsets: self.offsets }
    }
}

impl Token {
    /// A token of these parts.
    pub fn new(id: u32, value: String, offsets: (usize, usize)) -> (t: Self)
        ensures
            t@ == (TokenView { id, value: value@, offsets }),
    {
        Token { id, value, offsets }
    }
}

/// The tokens of a list as mathematical values.
pub open spec fn tokens_view(tokens: Seq<Token>) -> Seq<TokenView> {
    Seq::new(tokens.len(), |i: int| tokens[i]@)
}

/// What can go wrong.
#[derive(Debug, PartialEq, Eq)]
pub enum Error {
    /// The unknown token was needed and is not in the vocabulary.
    UnkTokenOutOfVocabulary(String),
    /// A stored model lacks a field.
    MissingField(String),
    /// A stored model holds a value of the wrong kind: the value, and what
    /// was expected.
    UnexpectedType(String, String),
    /// A stored split names a token that is not in the vocabulary.
    TokenNotInVocab(String),
    /// A number came up that the machine cannot hold: a count, a length or
    /// an id that does not fit, or a place below zero among the merged
    /// tokens.
    Overflow,
}

/// Whether `e` is the error of a missing unknown token and names that of
/// `lex`.
pub open spec fn names_unk_token(e: Error, lex: Lexicon) -> bool {
    e matches Error::UnkTokenOutOfVocabulary(t) && lex.unk_token == Some(t@)
}

/// The words that a message is made of.
pub open spec fn message_parts(e: Error) -> (Seq<char>, Seq<char>, Seq<char>) {
    match e {
        Error::UnkTokenOutOfVocabulary(t) => (unk_message(), t@, Seq::empty()),
        Error::MissingField(f) => (missing_message(), f@, Seq::empty()),
        Error::UnexpectedType(found, wanted) => (found@, unexpected_message(), wanted@),
        Error::TokenNotInVocab(t) => (no_token_message(), t@, Seq::empty()),
        Error::Overflow => (overflow_message(), Seq::empty(), Seq::empty()),
    }
}

/// How the message of a missing unknown token begins.
pub open spec fn unk_message() -> Seq<char> {
    "the unknown token is not in the vocabulary: "@
}

/// How the message of a missing field begins.
pub open spec fn missing_message() -> Seq<char> {
    "a field is missing: "@
}

/// What stands between what was found and what was expected.
pub open spec fn unexpected_message() -> Seq<char> {
    " was found where this was expected: "@
}

/// How the message of a split of an unknown token begins.
pub open spec fn no_token_message() -> Seq<char> {
    "a split names a token that is not in the vocabulary: "@
}

/// The message of a number that does not fit.
pub open spec fn overflow_message() -> Seq<char> {
    "a number came up that the machine cannot hold"@
}

impl Error {
    /// What went wrong, in words.
    pub fn message(&self) -> (s: String)
        ensures
            s@ == message_parts(*self).0 + message_parts(*self).1 + message_parts(*self).2,
    {
        let mut s = String::new();
        match self {
            Error::UnkTokenOutOfVocabulary(t) => {
                s.append("the unknown token is not in the vocabulary: ");
                s.append(t.as_str());
            },
            Error::MissingField(f) => {
                s.append("a field is missing: ");
                s.append(f.as_str());
            },
            Error::UnexpectedType(found, wanted) => {
                s.append(found.as_str());
                s.append(" was found where this was expected: ");
                s.append(wanted.as_str());
            },
            Error::TokenNotInVocab(t) => {
                s.append("a split names a token that is not in the vocabulary: ");
                s.append(t.as_str());
            },
            Error::Overflow => {
                s.append("a number came up that the machine cannot hold");
            },
        }
        assert(s@ =~= message_parts(*self).0 + message_parts(*self).1 + message_parts(*self).2);
        s
    }
}

/// What the encoder reads of a model when it sets up a word.
pub struct Lexicon {
    pub vocab: Map<Seq<char>, u32>,
    pub unk_token: Option<Seq<char>>,
    pub prefix: Option<Seq<char>>,
    pub suffix: Option<Seq<char>>,
    pub fuse_unk: bool,
    pub byte_fallback: bool,
}

/// An id and a byte length: one symbol to add to a word.
pub type Item = (u32, usize);

/// The word under construction: the symbols added so far, the unknown-token
/// symbol that is held back while it may still grow, and whether the unknown
/// token was needed and missing.
pub struct Draft {
    pub items: Seq<Item>,
    pub unk: Option<Item>,
    pub failed: bool,
}

/// The text of an option, empty if there is none.
pub open spec fn text_or_empty(o: Option<Seq<char>>) -> Seq<char> {
    match o {
        Some(t) => t,
        None => Seq::empty(),
    }
}

/// The string under which a character is looked up: behind the continuing
/// prefix unless it is the first of its word, before the end-of-word suffix
/// if it is the last.
pub open spec fn surface(c: char, is_first: bool, is_last: bool, lex: Lexicon) -> Seq<char> {
    (if is_first {
        Seq::empty()
    } else {
        text_or_empty(lex.prefix)
    }) + seq![c] + (if is_last {
        text_or_empty(lex.suffix)
    } else {
        Seq::empty()
    })
}

/// The ids of the byte tokens of `bytes`, if the vocabulary has one for
/// every byte.
pub open spec fn byte_ids(bytes: Seq<u8>, vocab: Map<Seq<char>, u32>) -> Option<Seq<u32>>
    decreases bytes.len(),
{
    if bytes.len() == 0 {
        Some(Seq::empty())
    } else {
        match byte_ids(bytes.drop_last(), vocab) {
            Some(head) => if vocab.contains_key(byte_token_text(bytes.last())) {
                Some(head.push(vocab[byte_token_text(bytes.last())]))
            } else {
                None
            },
            None => None,
        }
    }
}

/// One symbol of length 1 for each id.
pub open spec fn byte_items(ids: Seq<u32>) -> Seq<Item> {
    Seq::new(ids.len(), |i: int| (ids[i], 1usize))
}

/// The symbols of a draft with the unknown-token symbol that is held back
/// added behind them.
pub open spec fn flushed(d: Draft) -> Seq<Item> {
    match d.unk {
        Some(u) => d.items.push(u),
        None => d.items,
    }
}

/// How many symbols are held back: one or none.
pub open spec fn held(unk: Option<Item>) -> int {
    if unk is Some {
        1
    } else {
        0
    }
}

/// The draft after one more character.
///
/// A character whose string is in the vocabulary is added with its byte
/// length, after the unknown-token symbol that was held back, if any.
/// Otherwise, with byte fallback, if every byte of the string has a token,
/// these are added with length 1 each, after the unknown-token symbol that
/// was held back, if any. Otherwise, if there is an unknown
/// token: one that is held back grows by the byte length when unknowns are
/// fused; else it is added, and a new one of the byte length is held back,
/// which fails if the unknown token is not in the vocabulary. With no unknown
/// token the character is left out.
pub open spec fn draft_step(d: Draft, c: char, is_first: bool, is_last: bool, lex: Lexicon) -> Draft {
    let s = surface(c, is_first, is_last, lex);
    let byte_len = utf8_len(c) as usize;
    if d.failed {
        d
    } else if lex.vocab.contains_key(s) {
        Draft { items: flushed(d).push((lex.vocab[s], byte_len)), unk: None, failed: false }
    } else if lex.byte_fallback && byte_ids(encode_utf8(s), lex.vocab) is Some {
        Draft {
            items: flushed(d) + byte_items(byte_ids(encode_utf8(s), lex.vocab)->0),
            unk: None,
            failed: false,
        }
    } else {
        match lex.unk_token {
            None => d,
            Some(u) => match d.unk {
                Some((unk_id, unk_len)) => if lex.fuse_unk {
                    Draft {
                        items: d.items,
                        unk: Some((unk_id, (unk_len + byte_len) as usize)),
                        failed: false,
                    }
                } else if lex.vocab.contains_key(u) {
                    Draft {
                        items: d.items.push((unk_id, unk_len)),
                        unk: Some((lex.vocab[u], byte_len)),
                        failed: false,
                    }
                } else {
                    Draft { items: d.items, unk: d.unk, failed: true }
                },
                None => if lex.vocab.contains_key(u) {
                    Draft { items: d.items, unk: Some((lex.vocab[u], byte_len)), failed: false }
                } else {
                    Draft { items: d.items, unk: d.unk, failed: true }
                },
            },
        }
    }
}

/// The draft after the first `n` characters of `text`.
pub open spec fn draft_upto(text: Seq<char>, n: int, lex: Lexicon) -> Draft
    decreases n,
{
    if n <= 0 {
        Draft { items: Seq::empty(), unk: None, failed: false }
    } else {
        draft_step(draft_upto(text, n - 1, lex), text[n - 1], n == 1, n == text.len(), lex)
    }
}

/// The symbols of the word of `text` before any merge: those of the draft
/// after all characters, then the unknown-token symbol that is still held
/// back. `None` if the unknown token was needed and missing.
pub open spec fn initial_items(text: Seq<char>, lex: Lexicon) -> Option<Seq<Item>> {
    let d = draft_upto(text, text.len() as int, lex);
    if d.failed {
        None
    } else {
        Some(flushed(d))
    }
}

/// An upper bound on the bytes of the string of one character.
pub open spec fn per_char(lex: Lexicon) -> int {
    4 + encode_utf8(text_or_empty(lex.prefix)).len() as int + encode_utf8(
        text_or_empty(lex.suffix),
    ).len() as int
}

/// An upper bound on the symbols of the word of a text of `n` characters.
pub open spec fn word_budget(n: int, lex: Lexicon) -> int {
    n * per_char(lex) + 1
}

/// The tokens of a word: for each symbol its id, the string of that id, and
/// its byte offsets.
pub open spec fn tokens_of(s: Seq<Symbol>, vocab_r: Map<u32, Seq<char>>) -> Seq<TokenView> {
    Seq::new(
        s.len(),
        |i: int|
            TokenView {
                id: s[i].c,
                value: vocab_r[s[i].c],
                offsets: (offsets_of(s)[i].0 as usize, offsets_of(s)[i].1 as usize),
            },
    )
}

/// Every id of the word has a string.
pub open spec fn ids_resolve(s: Seq<Symbol>, vocab_r: Map<u32, Seq<char>>) -> bool {
    forall|i: int| 0 <= i < s.len() ==> vocab_r.contains_key((#[trigger] s[i]).c)
}

/// The id-to-string map that a list of vocabulary entries gives: each id
/// leads to the string of the last entry that has it.
pub open spec fn reversed(entries: Seq<(Seq<char>, u32)>) -> Map<u32, Seq<char>>
    decreases entries.len(),
{
    if entries.len() == 0 {
        Map::empty()
    } else {
        reversed(entries.drop_last()).insert(entries.last().1, entries.last().0)
    }
}

/// The strings of an id-to-string table.
pub open spec fn strings_view(m: Map<u32, String>) -> Map<u32, Seq<char>> {
    Map::new(|id: u32| m.contains_key(id), |id: u32| m[id]@)
}

/// Every id that the vocabulary or the tables name has a string.
pub open spec fn tables_resolve(
    vocab: Map<Seq<char>, u32>,
    merges: Map<Pair, MergeEntries>,
    splits: Map<u32, SplitEntries>,
    vocab_r: Map<u32, Seq<char>>,
) -> bool {
    &&& forall|k: Seq<char>| vocab.contains_key(k) ==> vocab_r.contains_key(#[trigger] vocab[k])
    &&& merges_within(merges, vocab_r.dom())
    &&& splits_within(splits, vocab_r.dom())
}

/// Every word of the cache has ids with strings and a summed length that
/// fits.
pub open spec fn cache_fits(cache: Map<Seq<char>, Seq<Symbol>>, vocab_r: Map<u32, Seq<char>>) -> bool {
    forall|k: Seq<char>|
        cache.contains_key(k) ==> ids_resolve(#[trigger] cache[k], vocab_r) && total_len(cache[k])
            <= usize::MAX
}

/// The word of `text` after the events of the tables have been replayed on
/// it; `None` if the unknown token was needed and missing.
pub open spec fn encoded_word(
    text: Seq<char>,
    lex: Lexicon,
    merges: Map<Pair, MergeEntries>,
    splits: Map<u32, SplitEntries>,
) -> Option<Seq<Symbol>> {
    match initial_items(text, lex) {
        Some(items) => Some(replayed(chain_of(items), merges, splits)),
        None => None,
    }
}

/// The text of an optional string.
pub open spec fn option_text(o: Option<String>) -> Option<Seq<char>> {
    match o {
        Some(s) => Some(s@),
        None => None,
    }
}

/// A pruning byte-pair-encoding model.
#[derive(Debug, PartialEq)]
pub struct PBPE {
    /// The vocabulary assigns a number to each token.
    pub vocab: Vocab,
    /// The reversed vocabulary, to find the string of a token.
    pub vocab_r: HashMap<u32, String>,
    /// For each pair its merges, as `(rank, new_id)`.
    pub merges: MergeMap,
    /// For each token its splits, as `(rank, pieces)`.
    pub splits: SplitMap,
    /// The encodings computed before, if they are kept.
    pub cache: Option<Cache>,
    /// The token for a character that the vocabulary does not have.
    pub unk_token: Option<String>,
    /// A prefix for every character of a word but the first.
    pub continuing_subword_prefix: Option<String>,
    /// A suffix for the last character of a word.
    pub end_of_word_suffix: Option<String>,
    /// Whether unknown tokens in a row become one.
    pub fuse_unk: bool,
    /// Whether a character that the vocabulary does not have is encoded by
    /// the tokens `<0xHH>` of its bytes before the unknown token is tried.
    pub byte_fallback: bool,
    /// Whether a word that is a token is encoded as that token.
    pub ignore_merges: bool,
}

impl Clone for PBPE {
    /// A copy that holds the same vocabulary, tables and options, with an
    /// empty cache of the same capacity.
    fn clone(&self) -> (c: Self)
        ensures
            c.vocab@ == self.vocab@,
            c.vocab.entries() == self.vocab.entries(),
            c.vocab_r@ == self.vocab_r@,
            c.merges@ == self.merges@,
            c.splits@ == self.splits@,
            c.cache_view() == (match self.cache_view() {
                Some(_) => Some(Map::<Seq<char>, Seq<Symbol>>::empty()),
                None => None,
            }),
            option_text(c.unk_token) == option_text(self.unk_token),
            option_text(c.continuing_subword_prefix) == option_text(self.continuing_subword_prefix),
            option_text(c.end_of_word_suffix) == option_text(self.end_of_word_suffix),
            c.fuse_unk == self.fuse_unk,
            c.byte_fallback == self.byte_fallback,
            c.ignore_merges == self.ignore_merges,
    {
        PBPE {
            vocab: self.vocab.duplicate(),
            vocab_r: self.vocab_r.clone(),
            merges: self.merges.duplicate(),
            splits: self.splits.duplicate(),
            cache: match &self.cache {
                Some(c) => Some(c.fresh()),
                None => None,
            },
            unk_token: match &self.unk_token {
                Some(t) => Some(copy_string(t)),
                None => None,
            },
            continuing_subword_prefix: match &self.continuing_subword_prefix {
                Some(t) => Some(copy_string(t)),
                None => None,
            },
            end_of_word_suffix: match &self.end_of_word_suffix {
                Some(t) => Some(copy_string(t)),
                None => None,
            },
            fuse_unk: self.fuse_unk,
            byte_fallback: self.byte_fallback,
            ignore_merges: self.ignore_merges,
        }
    }
}

impl Default for PBPE {
    /// A model with no vocabulary, no tables, a cache of the default
    /// capacity and every option off.
    fn default() -> (m: Self)
        ensures
            m.vocab.entries() == Seq::<(Seq<char>, u32)>::empty(),
            m.merges@ == Map::<Pair, MergeEntries>::empty(),
            m.splits@ == Map::<u32, SplitEntries>::empty(),
            m.cache_view() == Some(Map::<Seq<char>, Seq<Symbol>>::empty()),
            m.unk_token is None,
            m.continuing_subword_prefix is None,
            m.end_of_word_suffix is None,
            !m.fuse_unk,
            !m.byte_fallback,
            !m.ignore_merges,
    {
        PBPE::new(StrMap::new(), MergeMap::new(), SplitMap::new())
    }
}

impl PBPE {
    /// The id of each token string.
    pub open spec fn vocab_map(&self) -> Map<Seq<char>, u32> {
        self.vocab@
    }

    /// The vocabulary in the order in which its strings first came.
    pub open spec fn vocab_entries(&self) -> Seq<(Seq<char>, u32)> {
        self.vocab.entries()
    }

    /// The string of each token id.
    pub open spec fn vocab_r_map(&self) -> Map<u32, Seq<char>> {
        strings_view(self.vocab_r@)
    }

    /// The merges of each pair.
    pub open spec fn merges_map(&self) -> Map<Pair, MergeEntries> {
        self.merges@
    }

    /// The splits of each token.
    pub open spec fn splits_map(&self) -> Map<u32, SplitEntries> {
        self.splits@
    }

    /// The cache, if the model keeps one.
    pub open spec fn cache_view(&self) -> Option<Map<Seq<char>, Seq<Symbol>>> {
        match self.cache {
            Some(c) => Some(c@),
            None => None,
        }
    }

    /// How many words the cache holds.
    pub open spec fn cache_count(&self) -> nat {
        match self.cache {
            Some(c) => c.count(),
            None => 0,
        }
    }

    /// Whether the cache takes another word.
    pub open spec fn cache_has_room(&self) -> bool {
        match self.cache {
            Some(c) => c.count() < c.capacity(),
            None => false,
        }
    }

    /// What the encoder reads of this model when it sets up a word.
    pub open spec fn lexicon(&self) -> Lexicon {
        Lexicon {
            vocab: self.vocab_map(),
            unk_token: option_text(self.unk_token),
            prefix: option_text(self.continuing_subword_prefix),
            suffix: option_text(self.end_of_word_suffix),
            fuse_unk: self.fuse_unk,
            byte_fallback: self.byte_fallback,
        }
    }

    /// Every id that can come out of the encoder has a string, and what the
    /// cache holds can be turned into tokens.
    pub open spec fn consistent(&self) -> bool {
        &&& tables_resolve(
            self.vocab_map(),
            self.merges_map(),
            self.splits_map(),
            self.vocab_r_map(),
        )
        &&& match self.cache_view() {
            Some(c) => cache_fits(c, self.vocab_r_map()),
            None => true,
        }
    }

    /// The word that the encoder computes for `text` without the cache.
    pub open spec fn fresh_word(&self, text: Seq<char>) -> Option<Seq<Symbol>> {
        encoded_word(text, self.lexicon(), self.merges_map(), self.splits_map())
    }

    /// The word that the encoder has for `text`: the one in the cache if
    /// there is one, else the one it computes.
    pub open spec fn word_of(&self, text: Seq<char>) -> Option<Seq<Symbol>> {
        match self.cache_view() {
            Some(c) => if c.contains_key(text) {
                Some(c[text])
            } else {
                self.fresh_word(text)
            },
            None => self.fresh_word(text),
        }
    }

    /// The tokens of `text`: none for the empty text; the text itself as one
    /// token if merges are to be ignored and it is in the vocabulary; else
    /// the tokens of its word. `None` if the unknown token was needed and
    /// missing.
    pub open spec fn tokens_for(&self, text: Seq<char>) -> Option<Seq<TokenView>> {
        if text.len() == 0 {
            Some(Seq::empty())
        } else if self.ignore_merges && self.vocab_map().contains_key(text) {
            Some(
                seq![
                    TokenView {
                        id: self.vocab_map()[text],
                        value: text,
                        offsets: (0, encode_utf8(text).len() as usize),
                    },
                ],
            )
        } else {
            match self.word_of(text) {
                Some(w) => Some(tokens_of(w, self.vocab_r_map())),
                None => None,
            }
        }
    }

    /// How many words the cache can hold.
    pub open spec fn cache_capacity(&self) -> nat {
        match self.cache {
            Some(c) => c.capacity() as nat,
            None => 0,
        }
    }

    /// Whether the encoder computes the word of `text`: the text is not
    /// empty, it is not answered from the vocabulary, and the cache does not
    /// hold its word.
    pub open spec fn computes(&self, text: Seq<char>) -> bool {
        &&& text.len() > 0
        &&& !(self.ignore_merges && self.vocab_map().contains_key(text))
        &&& match self.cache_view() {
            Some(c) => !c.contains_key(text),
            None => true,
        }
    }

    /// Whether the word of `text` is too large to be computed: it may have
    /// more symbols than can be counted, or its summed length does not fit.
    pub open spec fn too_large(&self, text: Seq<char>) -> bool {
        word_budget(text.len() as int, self.lexicon()) > isize::MAX || !self.lengths_fit(text)
    }

    /// Whether encoding `text` fails for the size of its word.
    pub open spec fn overflows(&self, text: Seq<char>) -> bool {
        self.computes(text) && self.too_large(text)
    }

    /// Whether encoding `text` puts a word into the cache: there is a cache
    /// with room, and the word is computed.
    pub open spec fn caches(&self, text: Seq<char>) -> bool {
        &&& self.cache_view() is Some
        &&& self.computes(text)
        &&& !self.too_large(text)
        &&& self.fresh_word(text) is Some
        &&& self.cache_has_room()
    }

    /// The cache after `text` has been encoded: a word that was computed
    /// joins it if there is room.
    pub open spec fn cache_after(&self, text: Seq<char>) -> Option<Map<Seq<char>, Seq<Symbol>>> {
        match self.cache_view() {
            Some(c) => if self.caches(text) {
                Some(c.insert(text, self.fresh_word(text)->0))
            } else {
                Some(c)
            },
            None => None,
        }
    }

    /// Whether the cache holds for each of its words what the encoder
    /// computes for it.
    pub open spec fn cache_is_faithful(&self) -> bool {
        match self.cache_view() {
            Some(c) => forall|k: Seq<char>|
                c.contains_key(k) ==> self.fresh_word(k) == Some(#[trigger] c[k]),
            None => true,
        }
    }

    /// The summed length of the word that the encoder computes for `text`
    /// fits in `usize`.
    pub open spec fn lengths_fit(&self, text: Seq<char>) -> bool {
        match self.fresh_word(text) {
            Some(w) => total_len(w) <= usize::MAX,
            None => true,
        }
    }

    /// A builder with nothing set.
    pub fn builder() -> (b: PbpeBuilder)
        ensures
            b.config.vocab.entries() == Seq::<(Seq<char>, u32)>::empty(),
            b.config.merges@ == Map::<Pair, MergeEntries>::empty(),
            b.config.splits@ == Map::<u32, SplitEntries>::empty(),
            b.config.cache_capacity == DEFAULT_CACHE_CAPACITY,
            b.config.unk_token is None,
            b.config.continuing_subword_prefix is None,
            b.config.end_of_word_suffix is None,
            !b.config.fuse_unk,
            !b.config.byte_fallback,
            !b.config.ignore_merges,
    {
        PbpeBuilder::new()
    }

    /// A model of this vocabulary and these tables, with a cache of the
    /// default capacity and every option off.
    pub fn new(vocab: Vocab, merges: MergeMap, splits: SplitMap) -> (m: Self)
        ensures
            m.vocab == vocab,
            m.merges == merges,
            m.splits == splits,
            m.vocab_r_map() == reversed(vocab.entries()),
            forall|k: Seq<char>| #[trigger]
                m.vocab_map().contains_key(k) ==> m.vocab_r_map().contains_key(m.vocab_map()[k]),
            m.cache_view() == Some(Map::<Seq<char>, Seq<Symbol>>::empty()),
            m.cache_has_room(),
            m.unk_token is None,
            m.continuing_subword_prefix is None,
            m.end_of_word_suffix is None,
            !m.fuse_unk,
            !m.byte_fallback,
            !m.ignore_merges,
    {
        Self::builder().vocab_and_merges_and_splits(vocab, merges, splits).build().unwrap()
    }

    /// A copy of the vocabulary.
    pub fn get_vocab(&self) -> (v: Vocab)
        ensures
            v@ == self.vocab_map(),
            v.entries() == self.vocab_entries(),
    {
        self.vocab.duplicate()
    }

    /// Forgets the encodings computed before.
    pub fn clear_cache(&mut self)
        ensures
            final(self).cache_view() == (match old(self).cache_view() {
                Some(c) => Some(Map::<Seq<char>, Seq<Symbol>>::empty()),
                None => None,
            }),
            final(self).vocab_map() == old(self).vocab_map(),
            final(self).vocab_entries() == old(self).vocab_entries(),
            final(self).vocab_r_map() == old(self).vocab_r_map(),
            final(self).merges_map() == old(self).merges_map(),
            final(self).splits_map() == old(self).splits_map(),
            final(self).lexicon() == old(self).lexicon(),
            final(self).ignore_merges == old(self).ignore_merges,
    {
        let mut cache: Option<Cache> = None;
        std::mem::swap(&mut cache, &mut self.cache);
        match cache {
            Some(mut c) => {
                c.clear();
                self.cache = Some(c);
            },
            None => {},
        }
    }

    /// The unknown token, if one is set.
    pub fn get_unk_token(&self) -> (r: &Option<String>)
        ensures
            *r == self.unk_token,
    {
        &self.unk_token
    }

    /// The continuing prefix, if one is set.
    pub fn get_continuing_subword_prefix(&self) -> (r: &Option<String>)
        ensures
            *r == self.continuing_subword_prefix,
    {
        &self.continuing_subword_prefix
    }

    /// The number of tokens of the vocabulary.
    pub fn get_vocab_size(&self) -> (n: usize)
        ensures
            n == self.vocab_entries().len(),
    {
        self.vocab.len()
    }

    /// The id of a token.
    pub fn token_to_id(&self, token: &str) -> (r: Option<u32>)
        ensures
            r == (if self.vocab_map().contains_key(token@) {
                Some(self.vocab_map()[token@])
            } else {
                None
            }),
    {
        match self.vocab.get(token) {
            Some(id) => Some(*id),
            None => None,
        }
    }

    /// The string of an id.
    pub fn id_to_token(&self, id: u32) -> (r: Option<String>)
        ensures
            match r {
                Some(s) => self.vocab_r_map().contains_key(id) && s@ == self.vocab_r_map()[id],
                None => !self.vocab_r_map().contains_key(id),
            },
    {
        match self.vocab_r.get(&id) {
            Some(s) => Some(copy_string(s)),
            None => None,
        }
    }

    /// The ids of the byte tokens of `s`, if every byte has one.
    fn byte_tokens(&self, s: &str) -> (r: Option<Vec<u32>>)
        ensures
            match r {
                Some(v) => byte_ids(encode_utf8(s@), self.vocab_map()) == Some(v@),
                None => byte_ids(encode_utf8(s@), self.vocab_map()) is None,
            },
    {
        let bytes = s.as_bytes();
        let mut out: Vec<u32> = Vec::new();
        let mut i: usize = 0;
        while i < bytes.len()
            invariant
                i <= bytes@.len(),
                bytes@ == encode_utf8(s@),
                byte_ids(bytes@.take(i as int), self.vocab_map()) == Some(out@),
            decreases bytes@.len() - i,
        {
            proof {
                assert(bytes@.take(i + 1).drop_last() =~= bytes@.take(i as int));
            }
            let code = byte_token(bytes[i]);
            assert(bytes@.take(i + 1).last() == bytes@[i as int]);
            match self.vocab.get(code.as_str()) {
                Some(id) => {
                    out.push(*id);
                },
                None => {
                    proof {
                        assert(byte_ids(bytes@.take(i + 1), self.vocab_map()) is None);
                        lemma_byte_ids_prefix(bytes@, i + 1, self.vocab_map());
                    }
                    return None;
                },
            }
            i = i + 1;
        }
        proof {
            assert(bytes@.take(i as int) =~= bytes@);
        }
        Some(out)
    }

    /// The string under which a character is looked up.
    fn surface_string(&self, c: char, is_first: bool, is_last: bool) -> (s: String)
        ensures
            s@ == surface(c, is_first, is_last, self.lexicon()),
            encode_utf8(s@).len() <= per_char(self.lexicon()),
    {
        let ghost lex = self.lexicon();
        let mut s = String::new();
        if !is_first {
            match &self.continuing_subword_prefix {
                Some(p) => {
                    s.append(p.as_str());
                },
                None => {},
            }
        }
        let ghost head = s@;
        s.push(c);
        if is_last {
            match &self.end_of_word_suffix {
                Some(x) => {
                    s.append(x.as_str());
                },
                None => {},
            }
        }
        proof {
            let tail = if is_last {
                text_or_empty(lex.suffix)
            } else {
                Seq::empty()
            };
            assert(s@ =~= surface(c, is_first, is_last, lex));
            assert(s@ =~= (head + seq![c]) + tail);
            lemma_encode_concat(head + seq![c], tail);
            lemma_encode_concat(head, seq![c]);
            lemma_encode_one(c);
            assert(encode_utf8(Seq::<char>::empty()).len() == 0);
        }
        s
    }

    /// Holds back a new unknown-token symbol of `byte_len` bytes, after the
    /// one held back so far has been added; or lets that one grow.
    fn add_unknown(
        &self,
        word: &mut Word,
        unk: &mut Option<Item>,
        unk_token: &String,
        byte_len: usize,
        Ghost(items): Ghost<Seq<Item>>,
    ) -> (r: Result<Ghost<Seq<Item>>, Error>)
        requires
            old(word)@ == chain_of(items),
            items.len() + 1 < isize::MAX,
            option_text(self.unk_token) == Some(unk_token@),
            *old(unk) matches Some(u) ==> u.1 + byte_len <= usize::MAX,
        ensures
            match r {
                Ok(after) => final(word)@ == chain_of(after@) && after@.len() <= items.len() + 1 && (
                match *old(unk) {
                    Some((unk_id, unk_len)) => if self.fuse_unk {
                        after@ == items && *final(unk) == Some((unk_id, (unk_len + byte_len) as usize))
                    } else {
                        self.vocab_map().contains_key(unk_token@) && after@ == items.push(
                            (unk_id, unk_len),
                        ) && *final(unk) == Some((self.vocab_map()[unk_token@], byte_len))
                    },
                    None => self.vocab_map().contains_key(unk_token@) && after@ == items && *final(unk)
                        == Some((self.vocab_map()[unk_token@], byte_len)),
                }),
                Err(e) => names_unk_token(e, self.lexicon()) && !self.vocab_map().contains_key(
                    unk_token@,
                ) && !(*old(unk) is Some && self.fuse_unk),
            },
    {
        match *unk {
            Some((unk_id, unk_len)) => {
                if self.fuse_unk {
                    *unk = Some((unk_id, unk_len + byte_len));
                    Ok(Ghost(items))
                } else {
                    match self.vocab.get(unk_token.as_str()) {
                        Some(id) => {
                            proof {
                                lemma_added_chain(items, unk_id, unk_len);
                            }
                            word.add(unk_id, unk_len);
                            *unk = Some((*id, byte_len));
                            Ok(Ghost(items.push((unk_id, unk_len))))
                        },
                        None => Err(Error::UnkTokenOutOfVocabulary(copy_string(unk_token))),
                    }
                }
            },
            None => {
                match self.vocab.get(unk_token.as_str()) {
                    Some(id) => {
                        *unk = Some((*id, byte_len));
                        Ok(Ghost(items))
                    },
                    None => Err(Error::UnkTokenOutOfVocabulary(copy_string(unk_token))),
                }
            },
        }
    }

    /// Adds one symbol of length 1 for each id.
    fn add_bytes(word: &mut Word, ids: &Vec<u32>, Ghost(items): Ghost<Seq<Item>>)
        requires
            old(word)@ == chain_of(items),
            items.len() + ids@.len() < isize::MAX,
        ensures
            final(word)@ == chain_of(items + byte_items(ids@)),
    {
        let ghost mut cur = items;
        let mut j: usize = 0;
        proof {
            assert(items + byte_items(ids@).take(0) =~= items);
        }
        while j < ids.len()
            invariant
                j <= ids@.len(),
                cur == items + byte_items(ids@).take(j as int),
                word@ == chain_of(cur),
                items.len() + ids@.len() < isize::MAX,
            decreases ids@.len() - j,
        {
            proof {
                lemma_added_chain(cur, ids@[j as int], 1);
                assert(items + byte_items(ids@).take(j + 1) =~= cur.push((ids@[j as int], 1usize)));
                cur = cur.push((ids@[j as int], 1usize));
            }
            word.add(ids[j], 1);
            j = j + 1;
        }
        proof {
            assert(byte_items(ids@).take(j as int) =~= byte_items(ids@));
        }
    }

    /// Adds the unknown-token symbol that is held back, if there is one.
    fn flush(word: &mut Word, unk: &mut Option<Item>, Ghost(items): Ghost<Seq<Item>>) -> (r: Ghost<
        Seq<Item>,
    >)
        requires
            old(word)@ == chain_of(items),
            items.len() < isize::MAX,
        ensures
            r@ == flushed(Draft { items, unk: *old(unk), failed: false }),
            final(word)@ == chain_of(r@),
            *final(unk) is None,
    {
        match *unk {
            Some((unk_id, unk_len)) => {
                proof {
                    lemma_added_chain(items, unk_id, unk_len);
                }
                word.add(unk_id, unk_len);
                *unk = None;
                Ghost(items.push((unk_id, unk_len)))
            },
            None => Ghost(items),
        }
    }

    /// Takes one more character into the word under construction.
    fn add_char(
        &self,
        word: &mut Word,
        unk: &mut Option<Item>,
        c: char,
        is_first: bool,
        is_last: bool,
        Ghost(items): Ghost<Seq<Item>>,
    ) -> (r: Result<Ghost<Seq<Item>>, Error>)
        requires
            old(word)@ == chain_of(items),
            items.len() + held(*old(unk)) + per_char(self.lexicon()) < isize::MAX,
            *old(unk) matches Some(u) ==> u.1 + 4 <= usize::MAX,
        ensures
            match r {
                Ok(after) => draft_step(
                    Draft { items, unk: *old(unk), failed: false },
                    c,
                    is_first,
                    is_last,
                    self.lexicon(),
                ) == (Draft { items: after@, unk: *final(unk), failed: false }) && final(word)@
                    == chain_of(after@) && after@.len() + held(*final(unk)) <= items.len() + held(
                    *old(unk),
                ) + per_char(self.lexicon()),
                Err(e) => draft_step(
                    Draft { items, unk: *old(unk), failed: false },
                    c,
                    is_first,
                    is_last,
                    self.lexicon(),
                ).failed && names_unk_token(e, self.lexicon()),
            },
    {
        let ghost lex = self.lexicon();
        let byte_len = char_len(c);
        let s = self.surface_string(c, is_first, is_last);
        match self.vocab.get(s.as_str()) {
            Some(id) => {
                let Ghost(cur) = Self::flush(word, unk, Ghost(items));
                proof {
                    lemma_added_chain(cur, *id, byte_len);
                }
                word.add(*id, byte_len);
                Ok(Ghost(cur.push((*id, byte_len))))
            },
            None => {
                let fallback = if self.byte_fallback {
                    self.byte_tokens(s.as_str())
                } else {
                    None
                };
                match fallback {
                    Some(ids) => {
                        proof {
                            lemma_byte_ids_len(encode_utf8(s@), lex.vocab);
                        }
                        let Ghost(cur) = Self::flush(word, unk, Ghost(items));
                        Self::add_bytes(word, &ids, Ghost(cur));
                        Ok(Ghost(cur + byte_items(ids@)))
                    },
                    None => {
                        match &self.unk_token {
                            Some(unk_token) => self.add_unknown(
                                word,
                                unk,
                                unk_token,
                                byte_len,
                                Ghost(items),
                            ),
                            None => Ok(Ghost(items)),
                        }
                    },
                }
            },
        }
    }

    /// Whether every id of the vocabulary has a string.
    fn vocab_resolves(&self) -> (r: bool)
        ensures
            r == (forall|k: Seq<char>|
                self.vocab_map().contains_key(k) ==> self.vocab_r_map().contains_key(
                    #[trigger] self.vocab_map()[k],
                )),
    {
        let n = self.vocab.len();
        let mut i: usize = 0;
        self.vocab.keys_are_distinct();
        while i < n
            invariant
                i <= n,
                n == self.vocab.entries().len(),
                crate::strmap::keys_distinct(self.vocab.entries()),
                forall|j: int|
                    0 <= j < i ==> self.vocab_r@.contains_key((#[trigger] self.vocab.entries()[j]).1),
            decreases n - i,
        {
            let (k, id) = self.vocab.entry(i);
            if !self.vocab_r.contains_key(id) {
                proof {
                    self.vocab.lemma_get(k@);
                    crate::strmap::lemma_position_of(self.vocab.entries(), k@);
                    let at = crate::strmap::position_of(self.vocab.entries(), k@)->0;
                    if at != i {
                        assert(self.vocab.entries()[at].0 == k@);
                    }
                    assert(self.vocab_map().contains_key(k@) && self.vocab_map()[k@] == *id);
                }
                return false;
            }
            i = i + 1;
        }
        proof {
            assert forall|k: Seq<char>| self.vocab_map().contains_key(k) implies self.vocab_r_map().contains_key(
                #[trigger] self.vocab_map()[k],
            ) by {
                self.vocab.lemma_get(k);
                crate::strmap::lemma_position_of(self.vocab.entries(), k);
                let j = crate::strmap::position_of(self.vocab.entries(), k)->0;
                assert(self.vocab_r@.contains_key(self.vocab.entries()[j].1));
            }
        }
        true
    }

    /// Whether the model can encode: every id that the vocabulary, the
    /// tables or the cache name has a string.
    pub fn is_consistent(&self) -> (r: bool)
        ensures
            r == self.consistent(),
    {
        proof {
            assert(self.vocab_r_map().dom() =~= self.vocab_r@.dom());
        }
        let tables = self.vocab_resolves() && self.merges.resolves(&self.vocab_r)
            && self.splits.resolves(&self.vocab_r);
        let cache = match &self.cache {
            Some(c) => c.fits(&self.vocab_r),
            None => true,
        };
        tables && cache
    }

    /// Whether a word of `n` characters stays within the bound on its
    /// symbols.
    fn budget_fits(&self, n: usize) -> (r: bool)
        ensures
            r == (word_budget(n as int, self.lexicon()) <= isize::MAX),
    {
        let prefix_len: usize = match &self.continuing_subword_prefix {
            Some(p) => p.as_str().as_bytes().len(),
            None => 0,
        };
        let suffix_len: usize = match &self.end_of_word_suffix {
            Some(x) => x.as_str().as_bytes().len(),
            None => 0,
        };
        let ghost pc = per_char(self.lexicon());
        proof {
            assert(encode_utf8(Seq::<char>::empty()).len() == 0);
            assert(pc == 4 + prefix_len + suffix_len);
        }
        let both = match prefix_len.checked_add(suffix_len) {
            Some(sum) => sum.checked_add(4),
            None => None,
        };
        match both {
            Some(each) => match n.checked_mul(each) {
                Some(all) => all < isize::MAX as usize,
                None => false,
            },
            None => {
                proof {
                    if n > 0 {
                        assert(n * pc >= pc) by (nonlinear_arith)
                            requires
                                n >= 1,
                                pc >= 0,
                        ;
                    } else {
                        assert(n * pc == 0) by (nonlinear_arith)
                            requires
                                n == 0,
                        ;
                    }
                }
                n == 0
            },
        }
    }

    /// The word of `w`: its characters looked up in the vocabulary, then the
    /// events of the tables replayed. The word is not computed where it could
    /// have more symbols than can be counted.
    pub fn merge_word(&self, w: &str) -> (r: Result<Word, Error>)
        ensures
            match r {
                Ok(word) => word_budget(w@.len() as int, self.lexicon()) <= isize::MAX
                    && self.fresh_word(w@) == Some(word@),
                Err(e) => if word_budget(w@.len() as int, self.lexicon()) > isize::MAX {
                    e is Overflow
                } else {
                    self.fresh_word(w@) is None && names_unk_token(e, self.lexicon())
                },
            },
    {
        let chars = chars_of_str(w);
        let n = chars.len();
        if !self.budget_fits(n) {
            return Err(Error::Overflow);
        }
        let mut word = Word::with_capacity(n);
        let mut unk: Option<Item> = None;
        let ghost lex = self.lexicon();
        let ghost pc = per_char(lex);
        let ghost mut items: Seq<Item> = Seq::empty();
        let mut i: usize = 0;
        proof {
            assert(chain_of(items) =~= Seq::<Symbol>::empty());
        }
        while i < n
            invariant
                i <= n,
                n == chars@.len(),
                chars@ == w@,
                lex == self.lexicon(),
                pc == per_char(lex),
                pc >= 4,
                n * pc + 1 <= isize::MAX,
                draft_upto(w@, i as int, lex) == (Draft { items, unk, failed: false }),
                word@ == chain_of(items),
                items.len() + held(unk) <= i * pc,
                unk matches Some(u) ==> u.1 <= 4 * i,
            decreases n - i,
        {
            proof {
                assert((i + 1) * pc == i * pc + pc) by (nonlinear_arith);
                assert((i + 1) * pc <= n * pc) by (nonlinear_arith)
                    requires
                        i + 1 <= n,
                        pc >= 0,
                ;
                assert(4 * n <= n * pc) by (nonlinear_arith)
                    requires
                        pc >= 4,
                        n >= 0,
                ;
            }
            match self.add_char(&mut word, &mut unk, chars[i], i == 0, i + 1 == n, Ghost(items)) {
                Ok(after) => {
                    proof {
                        items = after@;
                    }
                },
                Err(e) => {
                    proof {
                        lemma_failed_stays(w@, i + 1, lex);
                    }
                    return Err(e);
                },
            }
            i = i + 1;
        }
        match unk {
            Some((unk_id, unk_len)) => {
                proof {
                    lemma_added_chain(items, unk_id, unk_len);
                    items = items.push((unk_id, unk_len));
                }
                word.add(unk_id, unk_len);
            },
            None => {},
        }
        assert(initial_items(w@, lex) == Some(items));
        word.merge_split_all(&self.merges, &self.splits);
        Ok(word)
    }

    /// The tokens of a word.
    pub fn word_to_tokens(&self, word: &Word) -> (tokens: Vec<Token>)
        requires
            ids_resolve(word@, self.vocab_r_map()),
            total_len(word@) <= usize::MAX,
        ensures
            tokens_view(tokens@) == tokens_of(word@, self.vocab_r_map()),
    {
        let chars = word.get_chars_iter();
        let offsets = word.get_offsets_iter();
        let mut tokens: Vec<Token> = Vec::new();
        let n = chars.len();
        let mut i: usize = 0;
        while i < n
            invariant
                i <= n,
                n == word@.len(),
                chars@ == crate::word::chars_of(word@),
                offsets@.len() == n,
                forall|j: int|
                    0 <= j < n ==> (#[trigger] offsets@[j]).0 == offsets_of(word@)[j].0
                        && offsets@[j].1 == offsets_of(word@)[j].1,
                ids_resolve(word@, self.vocab_r_map()),
                tokens@.len() == i,
                forall|j: int|
                    0 <= j < i ==> (#[trigger] tokens@[j])@ == tokens_of(word@, self.vocab_r_map())[j],
            decreases n - i,
        {
            let id = chars[i];
            assert(id == word@[i as int].c);
            let value = match self.vocab_r.get(&id) {
                Some(s) => copy_string(s),
                None => String::new(),
            };
            tokens.push(Token::new(id, value, offsets[i]));
            i = i + 1;
        }
        assert(tokens_view(tokens@) =~= tokens_of(word@, self.vocab_r_map()));
        tokens
    }

    /// Encodes a word that is not empty. Where its word is too large to be
    /// computed, the error says so.
    pub fn tokenize_with_cache(&mut self, sequence: &str) -> (r: Result<Vec<Token>, Error>)
        requires
            sequence@.len() > 0,
            old(self).consistent(),
        ensures
            match r {
                Ok(tokens) => !old(self).overflows(sequence@) && old(self).tokens_for(sequence@)
                    == Some(tokens_view(tokens@)),
                Err(e) => if old(self).overflows(sequence@) {
                    e is Overflow
                } else {
                    old(self).tokens_for(sequence@) is None && names_unk_token(
                        e,
                        old(self).lexicon(),
                    )
                },
            },
            final(self).cache_view() == old(self).cache_after(sequence@),
            final(self).cache_capacity() == old(self).cache_capacity(),
            final(self).cache_count() == old(self).cache_count() + (if old(self).caches(sequence@) {
                1nat
            } else {
                0nat
            }),
            final(self).consistent(),
            old(self).cache_is_faithful() ==> final(self).cache_is_faithful(),
            final(self).vocab_map() == old(self).vocab_map(),
            final(self).vocab_entries() == old(self).vocab_entries(),
            final(self).vocab_r_map() == old(self).vocab_r_map(),
            final(self).merges_map() == old(self).merges_map(),
            final(self).splits_map() == old(self).splits_map(),
            final(self).lexicon() == old(self).lexicon(),
            final(self).ignore_merges == old(self).ignore_merges,
    {
        if self.ignore_merges {
            match self.vocab.get(sequence) {
                Some(id) => {
                    let token = Token::new(*id, sequence.to_owned(), (0, sequence.len()));
                    let mut tokens: Vec<Token> = Vec::new();
                    tokens.push(token);
                    assert(tokens_view(tokens@) =~= old(self).tokens_for(sequence@)->0);
                    return Ok(tokens);
                },
                None => {},
            }
        }
        let hit = match &self.cache {
            Some(c) => c.get(sequence),
            None => None,
        };
        match hit {
            Some(w) => {
                return Ok(self.word_to_tokens(w));
            },
            None => {},
        }
        let word = match self.merge_word(sequence) {
            Ok(word) => word,
            Err(e) => {
                return Err(e);
            },
        };
        proof {
            let items = initial_items(sequence@, self.lexicon())->0;
            lemma_initial_items_resolve(sequence@, self.lexicon(), self.vocab_r_map());
            crate::replay::lemma_replayed_within(
                chain_of(items),
                self.merges_map(),
                self.splits_map(),
                self.vocab_r_map().dom(),
            );
        }
        if !word.lengths_fit() {
            return Err(Error::Overflow);
        }
        let ret = self.word_to_tokens(&word);
        let mut cache: Option<Cache> = None;
        std::mem::swap(&mut cache, &mut self.cache);
        match cache {
            Some(mut c) => {
                c.set(sequence.to_owned(), word);
                self.cache = Some(c);
            },
            None => {},
        }
        Ok(ret)
    }

    /// Encodes a word: its tokens, each with the bytes that it covers. Where
    /// its word is too large to be computed, the error says so.
    pub fn tokenize(&mut self, sequence: &str) -> (r: Result<Vec<Token>, Error>)
        requires
            old(self).consistent(),
        ensures
            match r {
                Ok(tokens) => !old(self).overflows(sequence@) && old(self).tokens_for(sequence@)
                    == Some(tokens_view(tokens@)),
                Err(e) => if old(self).overflows(sequence@) {
                    e is Overflow
                } else {
                    old(self).tokens_for(sequence@) is None && names_unk_token(
                        e,
                        old(self).lexicon(),
                    )
                },
            },
            final(self).cache_view() == old(self).cache_after(sequence@),
            final(self).cache_capacity() == old(self).cache_capacity(),
            final(self).cache_count() == old(self).cache_count() + (if old(self).caches(sequence@) {
                1nat
            } else {
                0nat
            }),
            final(self).consistent(),
            old(self).cache_is_faithful() ==> final(self).cache_is_faithful(),
            final(self).vocab_map() == old(self).vocab_map(),
            final(self).vocab_entries() == old(self).vocab_entries(),
            final(self).vocab_r_map() == old(self).vocab_r_map(),
            final(self).merges_map() == old(self).merges_map(),
            final(self).splits_map() == old(self).splits_map(),
            final(self).lexicon() == old(self).lexicon(),
            final(self).ignore_merges == old(self).ignore_merges,
    {
        if sequence.is_empty() {
            let tokens: Vec<Token> = Vec::new();
            assert(tokens_view(tokens@) =~= Seq::<TokenView>::empty());
            return Ok(tokens);
        }
        self.tokenize_with_cache(sequence)
    }
}

/// Where the ids of a longer byte sequence can be had, those of a prefix can.
pub proof fn lemma_byte_ids_prefix(bytes: Seq<u8>, n: int, vocab: Map<Seq<char>, u32>)
    requires
        0 <= n <= bytes.len(),
        byte_ids(bytes.take(n), vocab) is None,
    ensures
        byte_ids(bytes, vocab) is None,
    decreases bytes.len() - n,
{
    if n < bytes.len() {
        assert(bytes.take(n + 1).drop_last() =~= bytes.take(n));
        lemma_byte_ids_prefix(bytes, n + 1, vocab);
    } else {
        assert(bytes.take(n) =~= bytes);
    }
}

/// There is one id for each byte, and each is an id of the vocabulary.
pub proof fn lemma_byte_ids_len(bytes: Seq<u8>, vocab: Map<Seq<char>, u32>)
    requires
        byte_ids(bytes, vocab) is Some,
    ensures
        byte_ids(bytes, vocab)->0.len() == bytes.len(),
        forall|i: int|
            0 <= i < bytes.len() ==> vocab.contains_key(#[trigger] byte_token_text(bytes[i])) && (
            byte_ids(bytes, vocab)->0)[i] == vocab[byte_token_text(bytes[i])],
    decreases bytes.len(),
{
    if bytes.len() > 0 {
        lemma_byte_ids_len(bytes.drop_last(), vocab);
        let head = byte_ids(bytes.drop_last(), vocab)->0;
        let all = byte_ids(bytes, vocab)->0;
        assert(all == head.push(vocab[byte_token_text(bytes.last())]));
        assert forall|i: int| 0 <= i < bytes.len() implies vocab.contains_key(
            #[trigger] byte_token_text(bytes[i]),
        ) && all[i] == vocab[byte_token_text(bytes[i])] by {
            if i < bytes.len() - 1 {
                assert(bytes[i] == bytes.drop_last()[i]);
                assert(vocab.contains_key(byte_token_text(bytes.drop_last()[i])));
                assert(all[i] == head[i]);
            }
        }
    }
}

/// Once the unknown token was missing, the draft stays failed.
pub proof fn lemma_failed_stays(text: Seq<char>, n: int, lex: Lexicon)
    requires
        0 <= n <= text.len(),
        draft_upto(text, n, lex).failed,
    ensures
        draft_upto(text, text.len() as int, lex).failed,
    decreases text.len() - n,
{
    if n < text.len() {
        lemma_failed_stays(text, n + 1, lex);
    }
}

/// Whether an item list names only ids with strings.
pub open spec fn items_resolve(items: Seq<Item>, vocab_r: Map<u32, Seq<char>>) -> bool {
    forall|i: int| 0 <= i < items.len() ==> vocab_r.contains_key((#[trigger] items[i]).0)
}

/// The ids of a draft come from the vocabulary.
pub proof fn lemma_draft_resolves(text: Seq<char>, n: int, lex: Lexicon, vocab_r: Map<u32, Seq<char>>)
    requires
        forall|k: Seq<char>| lex.vocab.contains_key(k) ==> vocab_r.contains_key(#[trigger] lex.vocab[k]),
    ensures
        items_resolve(draft_upto(text, n, lex).items, vocab_r),
        draft_upto(text, n, lex).unk matches Some(u) ==> vocab_r.contains_key(u.0),
    decreases n,
{
    if n > 0 {
        lemma_draft_resolves(text, n - 1, lex, vocab_r);
        let d = draft_upto(text, n - 1, lex);
        let c = text[n - 1];
        let s = surface(c, n == 1, n == text.len(), lex);
        let e = draft_step(d, c, n == 1, n == text.len(), lex);
        if !d.failed && !lex.vocab.contains_key(s) && lex.byte_fallback && byte_ids(
            encode_utf8(s),
            lex.vocab,
        ) is Some {
            lemma_byte_ids_len(encode_utf8(s), lex.vocab);
            let ids = byte_ids(encode_utf8(s), lex.vocab)->0;
            assert forall|i: int| 0 <= i < e.items.len() implies vocab_r.contains_key(
                (#[trigger] e.items[i]).0,
            ) by {
                let head = flushed(d);
                if i >= head.len() {
                    let j = i - head.len();
                    assert(e.items[i] == byte_items(ids)[j]);
                    assert(lex.vocab.contains_key(byte_token_text(encode_utf8(s)[j])));
                    assert(ids[j] == lex.vocab[byte_token_text(encode_utf8(s)[j])]);
                } else if i < d.items.len() {
                    assert(e.items[i] == d.items[i]);
                } else {
                    assert(e.items[i] == d.unk->0);
                }
            }
        }
    }
}

/// The ids of the word of a text before any merge come from the vocabulary.
pub proof fn lemma_initial_items_resolve(text: Seq<char>, lex: Lexicon, vocab_r: Map<u32, Seq<char>>)
    requires
        forall|k: Seq<char>| lex.vocab.contains_key(k) ==> vocab_r.contains_key(#[trigger] lex.vocab[k]),
        initial_items(text, lex) is Some,
    ensures
        ids_within(chain_of(initial_items(text, lex)->0), vocab_r.dom()),
{
    lemma_draft_resolves(text, text.len() as int, lex, vocab_r);
    let items = initial_items(text, lex)->0;
    assert forall|i: int| 0 <= i < chain_of(items).len() implies vocab_r.dom().contains(
        (#[trigger] chain_of(items)[i]).c,
    ) by {
        assert(chain_of(items)[i].c == items[i].0);
    }
}

/// What a builder has been told so far.
pub struct Config {
    pub vocab: Vocab,
    pub merges: MergeMap,
    pub splits: SplitMap,
    pub cache_capacity: usize,
    pub unk_token: Option<String>,
    pub continuing_subword_prefix: Option<String>,
    pub end_of_word_suffix: Option<String>,
    pub fuse_unk: bool,
    pub byte_fallback: bool,
    pub ignore_merges: bool,
}

/// Builds a model from its parts, one option at a time.
pub struct PbpeBuilder {
    pub config: Config,
}

impl Default for PbpeBuilder {
    /// A builder with nothing set.
    fn default() -> (b: Self)
        ensures
            b.config.vocab.entries() == Seq::<(Seq<char>, u32)>::empty(),
            b.config.merges@ == Map::<Pair, MergeEntries>::empty(),
            b.config.splits@ == Map::<u32, SplitEntries>::empty(),
            b.config.cache_capacity == DEFAULT_CACHE_CAPACITY,
            b.config.unk_token is None,
            b.config.continuing_subword_prefix is None,
            b.config.end_of_word_suffix is None,
            !b.config.fuse_unk,
            !b.config.byte_fallback,
            !b.config.ignore_merges,
    {
        PbpeBuilder {
            config: Config {
                vocab: StrMap::new(),
                merges: MergeMap::new(),
                splits: SplitMap::new(),
                cache_capacity: DEFAULT_CACHE_CAPACITY,
                unk_token: None,
                continuing_subword_prefix: None,
                end_of_word_suffix: None,
                fuse_unk: false,
                byte_fallback: false,
                ignore_merges: false,
            },
        }
    }
}

impl PbpeBuilder {
    /// A builder of a model with no vocabulary, no tables, a cache of the
    /// default capacity and every option off.
    pub fn new() -> (b: Self)
        ensures
            b.config.vocab.entries() == Seq::<(Seq<char>, u32)>::empty(),
            b.config.merges@ == Map::<Pair, MergeEntries>::empty(),
            b.config.splits@ == Map::<u32, SplitEntries>::empty(),
            b.config.cache_capacity == DEFAULT_CACHE_CAPACITY,
            b.config.unk_token is None,
            b.config.continuing_subword_prefix is None,
            b.config.end_of_word_suffix is None,
            !b.config.fuse_unk,
            !b.config.byte_fallback,
            !b.config.ignore_merges,
    {
        Self::default()
    }

    /// Sets the vocabulary and the tables.
    #[must_use]
    pub fn vocab_and_merges_and_splits(self, vocab: Vocab, merges: MergeMap, splits: SplitMap) -> (b:
        Self)
        ensures
            b.config == (Config { vocab, merges, splits, ..self.config }),
    {
        let mut b = self;
        b.config.vocab = vocab;
        b.config.merges = merges;
        b.config.splits = splits;
        b
    }

    /// Sets the capacity of the cache; zero for no cache.
    #[must_use]
    pub fn cache_capacity(self, capacity: usize) -> (b: Self)
        ensures
            b.config == (Config { cache_capacity: capacity, ..self.config }),
    {
        let mut b = self;
        b.config.cache_capacity = capacity;
        b
    }

    /// Sets the unknown token.
    #[must_use]
    pub fn unk_token(self, unk_token: String) -> (b: Self)
        ensures
            b.config == (Config { unk_token: Some(unk_token), ..self.config }),
    {
        let mut b = self;
        b.config.unk_token = Some(unk_token);
        b
    }

    /// Sets the prefix of the characters behind the first.
    #[must_use]
    pub fn continuing_subword_prefix(self, prefix: String) -> (b: Self)
        ensures
            b.config == (Config { continuing_subword_prefix: Some(prefix), ..self.config }),
    {
        let mut b = self;
        b.config.continuing_subword_prefix = Some(prefix);
        b
    }

    /// Sets the suffix of the last character.
    #[must_use]
    pub fn end_of_word_suffix(self, suffix: String) -> (b: Self)
        ensures
            b.config == (Config { end_of_word_suffix: Some(suffix), ..self.config }),
    {
        let mut b = self;
        b.config.end_of_word_suffix = Some(suffix);
        b
    }

    /// Sets whether unknown tokens in a row become one.
    #[must_use]
    pub fn fuse_unk(self, fuse_unk: bool) -> (b: Self)
        ensures
            b.config == (Config { fuse_unk, ..self.config }),
    {
        let mut b = self;
        b.config.fuse_unk = fuse_unk;
        b
    }

    /// Sets whether bytes stand in for characters that are not in the
    /// vocabulary.
    #[must_use]
    pub fn byte_fallback(self, byte_fallback: bool) -> (b: Self)
        ensures
            b.config == (Config { byte_fallback, ..self.config }),
    {
        let mut b = self;
        b.config.byte_fallback = byte_fallback;
        b
    }

    /// Sets whether a word that is a token is encoded as that token.
    #[must_use]
    pub fn ignore_merges(self, ignore_merges: bool) -> (b: Self)
        ensures
            b.config == (Config { ignore_merges, ..self.config }),
    {
        let mut b = self;
        b.config.ignore_merges = ignore_merges;
        b
    }

    /// The model of this configuration. Its reversed vocabulary is computed
    /// from the vocabulary; its cache is empty, and absent for capacity zero.
    pub fn build(self) -> (r: Result<PBPE, Error>)
        ensures
            r matches Ok(m) && built_from(m, self.config),
    {
        let vocab_r = reverse_vocab(&self.config.vocab);
        proof {
            let entries = self.config.vocab.entries();
            lemma_reversed_covers(entries);
            assert forall|k: Seq<char>| #[trigger]
                self.config.vocab@.contains_key(k) implies reversed(entries).contains_key(
                self.config.vocab@[k],
            ) by {
                self.config.vocab.lemma_get(k);
                crate::strmap::lemma_position_of(entries, k);
            }
        }
        let cache = if self.config.cache_capacity == 0 {
            None
        } else {
            Some(Cache::new(self.config.cache_capacity))
        };
        Ok(
            PBPE {
                vocab: self.config.vocab,
                vocab_r,
                merges: self.config.merges,
                splits: self.config.splits,
                cache,
                unk_token: self.config.unk_token,
                continuing_subword_prefix: self.config.continuing_subword_prefix,
                end_of_word_suffix: self.config.end_of_word_suffix,
                fuse_unk: self.config.fuse_unk,
                byte_fallback: self.config.byte_fallback,
                ignore_merges: self.config.ignore_merges,
            },
        )
    }
}

/// What `build` makes of a configuration.
pub open spec fn built_from(m: PBPE, config: Config) -> bool {
    &&& m.vocab == config.vocab
    &&& m.vocab_r_map() == reversed(config.vocab.entries())
    &&& forall|k: Seq<char>| #[trigger]
        m.vocab_map().contains_key(k) ==> m.vocab_r_map().contains_key(m.vocab_map()[k])
    &&& m.merges == config.merges
    &&& m.splits == config.splits
    &&& m.cache_view() == (if config.cache_capacity == 0 {
        None
    } else {
        Some(Map::<Seq<char>, Seq<Symbol>>::empty())
    })
    &&& (config.cache_capacity != 0 ==> m.cache_has_room())
    &&& m.unk_token == config.unk_token
    &&& m.continuing_subword_prefix == config.continuing_subword_prefix
    &&& m.end_of_word_suffix == config.end_of_word_suffix
    &&& m.fuse_unk == config.fuse_unk
    &&& m.byte_fallback == config.byte_fallback
    &&& m.ignore_merges == config.ignore_merges
}

/// The id-to-string table of a vocabulary.
pub fn reverse_vocab(vocab: &Vocab) -> (vocab_r: HashMap<u32, String>)
    ensures
        strings_view(vocab_r@) == reversed(vocab.entries()),
{
    let mut vocab_r: HashMap<u32, String> = HashMap::new();
    let n = vocab.len();
    let mut i: usize = 0;
    proof {
        assert(vocab.entries().take(0) =~= Seq::<(Seq<char>, u32)>::empty());
        assert(strings_view(vocab_r@) =~= reversed(vocab.entries().take(0)));
    }
    while i < n
        invariant
            i <= n,
            n == vocab.entries().len(),
            strings_view(vocab_r@) == reversed(vocab.entries().take(i as int)),
        decreases n - i,
    {
        let (k, v) = vocab.entry(i);
        let ghost before = strings_view(vocab_r@);
        vocab_r.insert(*v, copy_string(k));
        proof {
            assert(vocab.entries().take(i + 1).drop_last() =~= vocab.entries().take(i as int));
            assert(strings_view(vocab_r@) =~= before.insert(*v, k@));
        }
        i = i + 1;
    }
    proof {
        assert(vocab.entries().take(n as int) =~= vocab.entries());
    }
    vocab_r
}

/// Every id of a vocabulary has a string in its reversed table.
pub proof fn lemma_reversed_covers(entries: Seq<(Seq<char>, u32)>)
    ensures
        forall|i: int| 0 <= i < entries.len() ==> reversed(entries).contains_key((#[trigger] entries[i]).1),
    decreases entries.len(),
{
    if entries.len() > 0 {
        lemma_reversed_covers(entries.drop_last());
        assert forall|i: int| 0 <= i < entries.len() implies reversed(entries).contains_key(
            (#[trigger] entries[i]).1,
        ) by {
            if i < entries.len() - 1 {
                assert(entries[i] == entries.drop_last()[i]);
            }
        }
    }
}

} // verus!
