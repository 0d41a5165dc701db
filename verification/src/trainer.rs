//! The trainer: from a corpus of words with their counts to a vocabulary, a
//! merge table and a split table.

use crate::alphabet::{
    char_weights, code_points, name_all, name_alphabet, named_all, opt_text, spell_words,
    texts_view, tokenize_words, weigh_corpus, with_alphabet,
};
use crate::model::{reverse_vocab, reversed, Error, PBPE};
use crate::naming::{Names, Naming};
use crate::pairs::{count_pairs, count_words, is_top, top_key, PairQueue, Queued, Tally};
use crate::pruning::Ratio;
use crate::strmap::StrMap;
use crate::tables::{MergeEntries, MergeMap, SplitEntries, SplitMap};
use crate::text::copy_string;
use crate::training::{
    growth, lemma_merged_round_log, lemma_merges_in, log_limit, log_view, passes, places_of,
    requeued, round, text_of, Happening, HappeningView, Options, Settings, Training,
    TrainingView,
};
use crate::word::Pair;
use std::collections::HashMap;
use vstd::prelude::*;

verus! {

broadcast use vstd::std_specs::hash::group_hash_axioms;

/// A token that is put into the vocabulary before training.
#[derive(Debug, PartialEq, Eq)]
pub struct AddedToken {
    /// The string of the token.
    pub content: String,
    /// Whether it matches whole words only.
    pub single_word: bool,
    /// Whether it takes the white space to its left.
    pub lstrip: bool,
    /// Whether it takes the white space to its right.
    pub rstrip: bool,
    /// Whether it is matched against the normalized text.
    pub normalized: bool,
    /// Whether it is a special token.
    pub special: bool,
}

/// A token that is put into the vocabulary before training, as a
/// mathematical value.
pub struct AddedTokenView {
    pub content: Seq<char>,
    pub single_word: bool,
    pub lstrip: bool,
    pub rstrip: bool,
    pub normalized: bool,
    pub special: bool,
}

impl View for AddedToken {
    type V = AddedTokenView;

    open spec fn view(&self) -> AddedTokenView {
        AddedTokenView {
            content: self.content@,
            single_word: self.single_word,
            lstrip: self.lstrip,
            rstrip: self.rstrip,
            normalized: self.normalized,
            special: self.special,
        }
    }
}

/// The tokens of a list as mathematical values: each with its string and
/// its five flags.
pub open spec fn added_view(tokens: Seq<AddedToken>) -> Seq<AddedTokenView> {
    Seq::new(tokens.len(), |i: int| tokens[i]@)
}

impl AddedToken {
    /// A token of this string. A special token is matched against the text
    /// as it is, any other against the normalized text.
    pub fn from(content: String, special: bool) -> (t: Self)
        ensures
            t.content == content,
            t.special == special,
            t.normalized == !special,
            !t.single_word,
            !t.lstrip,
            !t.rstrip,
    {
        AddedToken {
            content,
            single_word: false,
            lstrip: false,
            rstrip: false,
            normalized: !special,
            special,
        }
    }

    /// A copy of this token.
    pub fn duplicate(&self) -> (t: Self)
        ensures
            t@ == self@,
    {
        AddedToken {
            content: copy_string(&self.content),
            single_word: self.single_word,
            lstrip: self.lstrip,
            rstrip: self.rstrip,
            normalized: self.normalized,
            special: self.special,
        }
    }
}

/// The strings of a list of tokens.
pub open spec fn contents(tokens: Seq<AddedToken>) -> Seq<Seq<char>> {
    Seq::new(tokens.len(), |i: int| tokens[i].content@)
}

/// The threshold that applies where none is set: one.
pub open spec fn default_tau() -> Ratio {
    Ratio { num: 1, den: 1 }
}

/// Trains a `PBPE` model.
pub struct PbpeTrainer {
    /// The least count that a pair must have to be merged.
    pub min_frequency: u64,
    /// The size of the vocabulary at which training stops.
    pub vocab_size: usize,
    /// Whether progress is to be shown while training.
    pub show_progress: bool,
    /// The tokens that get the first ids.
    pub special_tokens: Vec<AddedToken>,
    /// The most characters that the alphabet may have.
    pub limit_alphabet: Option<usize>,
    /// Characters that are in the alphabet whether the corpus has them or
    /// not.
    pub initial_alphabet: Vec<char>,
    /// A prefix for every character of a word but the first.
    pub continuing_subword_prefix: Option<String>,
    /// A suffix for the last character of a word.
    pub end_of_word_suffix: Option<String>,
    /// The byte length that no pair of neighbours may reach for its count to
    /// be kept.
    pub max_token_length: Option<usize>,
    /// The share of its occurrences that a merge must take from a parent
    /// for the parent to be retracted.
    pub tau: Option<Ratio>,
    /// The corpus: words with their counts.
    pub words: StrMap<u64>,
}

/// What a trainer builder has been told so far.
pub struct TrainerConfig {
    pub min_frequency: u64,
    pub vocab_size: usize,
    pub show_progress: bool,
    pub special_tokens: Vec<AddedToken>,
    pub limit_alphabet: Option<usize>,
    pub initial_alphabet: Vec<char>,
    pub continuing_subword_prefix: Option<String>,
    pub end_of_word_suffix: Option<String>,
    pub max_token_length: Option<usize>,
    pub tau: Option<Ratio>,
}

/// Builds a trainer, one option at a time.
pub struct PbpeTrainerBuilder {
    pub config: TrainerConfig,
}

/// Whether a configuration is the one that a builder starts with.
pub open spec fn is_default_config(c: TrainerConfig) -> bool {
    &&& c.min_frequency == 0
    &&& c.vocab_size == 30000
    &&& c.show_progress
    &&& c.special_tokens@.len() == 0
    &&& c.limit_alphabet is None
    &&& c.initial_alphabet@.len() == 0
    &&& c.continuing_subword_prefix is None
    &&& c.end_of_word_suffix is None
    &&& c.max_token_length is None
    &&& c.tau == Some(default_tau())
}

impl Default for PbpeTrainerBuilder {
    /// A builder with nothing set.
    fn default() -> (b: Self)
        ensures
            is_default_config(b.config),
    {
        PbpeTrainerBuilder {
            config: TrainerConfig {
                min_frequency: 0,
                vocab_size: 30000,
                show_progress: true,
                special_tokens: Vec::new(),
                limit_alphabet: None,
                initial_alphabet: Vec::new(),
                continuing_subword_prefix: None,
                end_of_word_suffix: None,
                max_token_length: None,
                tau: Some(Ratio { num: 1, den: 1 }),
            },
        }
    }
}

impl PbpeTrainerBuilder {
    /// A builder of a trainer with least frequency 0, vocabulary size
    /// 30000, progress shown, threshold one, and nothing else set.
    pub fn new() -> (b: Self)
        ensures
            is_default_config(b.config),
    {
        Self::default()
    }

    /// Sets the least count that a pair must have to be merged.
    #[must_use]
    pub fn min_frequency(self, frequency: u64) -> (b: Self)
        ensures
            b.config == (TrainerConfig { min_frequency: frequency, ..self.config }),
    {
        let mut b = self;
        b.config.min_frequency = frequency;
        b
    }

    /// Sets the size of the vocabulary at which training stops.
    #[must_use]
    pub fn vocab_size(self, size: usize) -> (b: Self)
        ensures
            b.config == (TrainerConfig { vocab_size: size, ..self.config }),
    {
        let mut b = self;
        b.config.vocab_size = size;
        b
    }

    /// Sets whether progress is to be shown.
    #[must_use]
    pub fn show_progress(self, show: bool) -> (b: Self)
        ensures
            b.config == (TrainerConfig { show_progress: show, ..self.config }),
    {
        let mut b = self;
        b.config.show_progress = show;
        b
    }

    /// Sets the tokens that get the first ids.
    #[must_use]
    pub fn special_tokens(self, tokens: Vec<AddedToken>) -> (b: Self)
        ensures
            b.config == (TrainerConfig { special_tokens: tokens, ..self.config }),
    {
        let mut b = self;
        b.config.special_tokens = tokens;
        b
    }

    /// Sets the most characters that the alphabet may have.
    #[must_use]
    pub fn limit_alphabet(self, limit: usize) -> (b: Self)
        ensures
            b.config == (TrainerConfig { limit_alphabet: Some(limit), ..self.config }),
    {
        let mut b = self;
        b.config.limit_alphabet = Some(limit);
        b
    }

    /// Sets the characters that are in the alphabet in any case.
    #[must_use]
    pub fn initial_alphabet(self, alphabet: Vec<char>) -> (b: Self)
        ensures
            b.config == (TrainerConfig { initial_alphabet: alphabet, ..self.config }),
    {
        let mut b = self;
        b.config.initial_alphabet = alphabet;
        b
    }

    /// Sets the prefix of the characters behind the first.
    #[must_use]
    pub fn continuing_subword_prefix(self, prefix: String) -> (b: Self)
        ensures
            b.config == (TrainerConfig { continuing_subword_prefix: Some(prefix), ..self.config }),
    {
        let mut b = self;
        b.config.continuing_subword_prefix = Some(prefix);
        b
    }

    /// Sets the suffix of the last character.
    #[must_use]
    pub fn end_of_word_suffix(self, suffix: String) -> (b: Self)
        ensures
            b.config == (TrainerConfig { end_of_word_suffix: Some(suffix), ..self.config }),
    {
        let mut b = self;
        b.config.end_of_word_suffix = Some(suffix);
        b
    }

    /// Sets the byte length that no pair of neighbours may reach.
    #[must_use]
    pub fn max_token_length(self, max_token_length: Option<usize>) -> (b: Self)
        ensures
            b.config == (TrainerConfig { max_token_length, ..self.config }),
    {
        let mut b = self;
        b.config.max_token_length = max_token_length;
        b
    }

    /// Sets the threshold of retraction.
    #[must_use]
    pub fn tau(self, tau: Option<Ratio>) -> (b: Self)
        ensures
            b.config == (TrainerConfig { tau, ..self.config }),
    {
        let mut b = self;
        b.config.tau = tau;
        b
    }

    /// The trainer of this configuration, with an empty corpus.
    pub fn build(self) -> (t: PbpeTrainer)
        ensures
            t.min_frequency == self.config.min_frequency,
            t.vocab_size == self.config.vocab_size,
            t.show_progress == self.config.show_progress,
            t.special_tokens == self.config.special_tokens,
            t.limit_alphabet == self.config.limit_alphabet,
            t.initial_alphabet == self.config.initial_alphabet,
            t.continuing_subword_prefix == self.config.continuing_subword_prefix,
            t.end_of_word_suffix == self.config.end_of_word_suffix,
            t.max_token_length == self.config.max_token_length,
            t.tau == self.config.tau,
            t.words.entries() == Seq::<(Seq<char>, u64)>::empty(),
    {
        PbpeTrainer {
            min_frequency: self.config.min_frequency,
            vocab_size: self.config.vocab_size,
            show_progress: self.config.show_progress,
            special_tokens: self.config.special_tokens,
            limit_alphabet: self.config.limit_alphabet,
            initial_alphabet: self.config.initial_alphabet,
            continuing_subword_prefix: self.config.continuing_subword_prefix,
            end_of_word_suffix: self.config.end_of_word_suffix,
            max_token_length: self.config.max_token_length,
            tau: self.config.tau,
            words: StrMap::new(),
        }
    }
}

/// What training is to do.
pub struct Plan {
    pub special: Seq<Seq<char>>,
    pub initial: Seq<char>,
    pub limit: Option<usize>,
    pub suffix: Option<Seq<char>>,
    pub settings: Settings,
}

/// The state with which the rounds begin: the special tokens are named, then
/// the alphabet; the words are spelled; the pairs are counted, and those with
/// a count of at least one wait in the queue. `None` if the ids run out or a
/// number does not fit.
pub open spec fn started(plan: Plan, corpus: Seq<(Seq<char>, u64)>) -> Option<TrainingView> {
    match named_all(Seq::empty(), plan.special, plan.special.len() as int) {
        None => None,
        Some(names1) => match with_alphabet(
            names1,
            char_weights(corpus, plan.initial),
            plan.limit,
            code_points(),
        ) {
            None => None,
            Some(names2) => match spell_words(
                names2,
                corpus,
                corpus.len() as int,
                plan.settings.prefix,
                plan.suffix,
            ) {
                None => None,
                Some(spelled) => if spelled.names.len() > u32::MAX {
                    None
                } else {
                    match count_words(
                        Tally { counts: Map::empty(), fresh: Seq::empty() },
                        spelled.words,
                        spelled.counts,
                        spelled.words.len() as int,
                    ) {
                        None => None,
                        Some(tally) => Some(
                            requeued(
                                TrainingView {
                                    names: spelled.names,
                                    atomic: spelled.names.len() as u32,
                                    active: Seq::empty(),
                                    parents: Seq::empty(),
                                    words: spelled.words,
                                    counts: spelled.counts,
                                    pair_counts: tally.counts,
                                    fresh: tally.fresh,
                                    queue: Queued { counts: Map::empty(), places: Map::empty() },
                                    merged: Map::empty(),
                                    log: Seq::empty(),
                                },
                                1,
                            ),
                        ),
                    }
                },
            },
        }
    }
}

/// Whether the vocabulary has reached the size at which training stops.
pub open spec fn vocab_full(t: TrainingView, cfg: Settings) -> bool {
    t.atomic + growth(t.log) >= cfg.vocab_size
}

/// Whether the rounds go on: the vocabulary is not full, and a pair waits.
pub open spec fn goes_on(t: TrainingView, cfg: Settings) -> bool {
    &&& !vocab_full(t, cfg)
    &&& t.queue.counts != Map::<u64, i64>::empty()
    &&& t.queue.counts.dom().finite()
    &&& is_top(t.queue.counts, top_key(t.queue.counts))
    &&& t.log.len() <= log_limit()
}

/// The state when the rounds have ended. `None` if a round has failed.
pub open spec fn rounds(t: TrainingView, cfg: Settings) -> Option<TrainingView>
    decreases log_limit() - t.log.len(), t.queue.counts.dom().len(),
{
    if !goes_on(t, cfg) {
        Some(t)
    } else {
        match round(t, cfg) {
            None => None,
            Some(u) => {
                proof {
                    lemma_round_measure(t, cfg);
                }
                rounds(u, cfg)
            },
        }
    }
}

/// A round makes the log longer, or leaves it and makes the queue shorter.
pub proof fn lemma_round_measure(t: TrainingView, cfg: Settings)
    requires
        goes_on(t, cfg),
    ensures
        round(t, cfg) matches Some(u) ==> u.log.len() <= log_limit() && (t.log.len() < u.log.len()
            || (u.log.len() == t.log.len() && u.queue.counts.dom().len()
            < t.queue.counts.dom().len())),
{
    let key = top_key(t.queue.counts);
    let priority = t.queue.counts[key];
    let places = places_of(t.queue, key);
    let pair = crate::tables::key_pair(key);
    let left = TrainingView {
        queue: Queued { counts: t.queue.counts.remove(key), places: t.queue.places.remove(key) },
        ..t
    };
    if passes(left, pair, priority, cfg) {
        lemma_merged_round_log(left, pair, priority, places, cfg);
    } else {
        t.queue.counts.lemma_remove_key_len(key);
    }
}

/// What a trained model holds: the vocabulary, and the tables with every
/// event under its rank.
pub struct Outcome {
    pub names: Names,
    /// How many of the tokens are atomic: the special tokens and the
    /// alphabet, which have the first ids.
    pub atomic: u32,
    pub merges: Map<Pair, MergeEntries>,
    pub splits: Map<u32, SplitEntries>,
}

/// A table with one more entry at the end of the list of `k`.
pub open spec fn entry_pushed<K, V>(m: Map<K, Seq<V>>, k: K, v: V) -> Map<K, Seq<V>> {
    m.insert(
        k,
        (if m.contains_key(k) {
            m[k]
        } else {
            Seq::empty()
        }).push(v),
    )
}

/// The pieces of a split as token ids.
pub open spec fn piece_ids(pieces: Seq<usize>) -> Seq<u32> {
    Seq::new(pieces.len(), |j: int| pieces[j] as u32)
}

/// The merge table of the first `n` events: each merge stands under its
/// pair, with its place in the log as rank.
pub open spec fn merges_upto(log: Seq<HappeningView>, n: int) -> Map<Pair, MergeEntries>
    decreases n,
{
    if n <= 0 {
        Map::empty()
    } else {
        let m = merges_upto(log, n - 1);
        match log[n - 1] {
            HappeningView::Merge { pair, new_id } => entry_pushed(m, pair, ((n - 1) as u32, new_id)),
            HappeningView::Split { .. } => m,
        }
    }
}

/// The split table of the first `n` events: each split stands under its
/// token, with its place in the log as rank.
pub open spec fn splits_upto(log: Seq<HappeningView>, n: int) -> Map<u32, SplitEntries>
    decreases n,
{
    if n <= 0 {
        Map::empty()
    } else {
        let m = splits_upto(log, n - 1);
        match log[n - 1] {
            HappeningView::Merge { .. } => m,
            HappeningView::Split { id, pieces } => entry_pushed(
                m,
                id,
                ((n - 1) as u32, piece_ids(pieces)),
            ),
        }
    }
}

/// What training makes of a corpus. `None` if the ids or the ranks run out,
/// a number does not fit, or the string of a merged pair is the name of an
/// atomic token.
pub open spec fn trained(plan: Plan, corpus: Seq<(Seq<char>, u64)>) -> Option<Outcome> {
    match started(plan, corpus) {
        None => None,
        Some(t) => match rounds(t, plan.settings) {
            None => None,
            Some(u) => Some(
                Outcome {
                    names: u.names,
                    atomic: u.atomic,
                    merges: merges_upto(u.log, u.log.len() as int),
                    splits: splits_upto(u.log, u.log.len() as int),
                },
            ),
        },
    }
}

/// The ids of the pieces of a split.
fn ids_of_pieces(pieces: &Vec<usize>) -> (ids: Vec<u32>)
    ensures
        ids@ == piece_ids(pieces@),
{
    let mut ids: Vec<u32> = Vec::new();
    let mut j: usize = 0;
    while j < pieces.len()
        invariant
            j <= pieces@.len(),
            ids@ == piece_ids(pieces@).take(j as int),
        decreases pieces@.len() - j,
    {
        ids.push(pieces[j] as u32);
        assert(ids@ =~= piece_ids(pieces@).take(j + 1));
        j = j + 1;
    }
    assert(piece_ids(pieces@).take(j as int) =~= piece_ids(pieces@));
    ids
}

/// The tables of a log.
fn conclude(log: &Vec<Happening>) -> (r: (MergeMap, SplitMap))
    requires
        log@.len() <= log_limit(),
    ensures
        r.0@ == merges_upto(log_view(log@), log@.len() as int),
        r.1@ == splits_upto(log_view(log@), log@.len() as int),
{
    let mut merges = MergeMap::new();
    let mut splits = SplitMap::new();
    let mut i: usize = 0;
    while i < log.len()
        invariant
            i <= log@.len(),
            log@.len() <= log_limit(),
            merges@ == merges_upto(log_view(log@), i as int),
            splits@ == splits_upto(log_view(log@), i as int),
        decreases log@.len() - i,
    {
        assert(log_view(log@)[i as int] == log@[i as int]@);
        match &log[i] {
            Happening::Merge { pair, new_id } => {
                merges.push_entry(*pair, i as u32, *new_id);
            },
            Happening::Split { id, pieces } => {
                splits.push_entry(*id, i as u32, ids_of_pieces(pieces));
            },
        }
        i = i + 1;
    }
    (merges, splits)
}

impl Default for PbpeTrainer {
    /// The trainer that a builder with nothing set builds.
    fn default() -> (t: Self)
        ensures
            t.min_frequency == 0,
            t.vocab_size == 30000,
            t.show_progress,
            t.special_tokens@.len() == 0,
            t.limit_alphabet is None,
            t.initial_alphabet@.len() == 0,
            t.continuing_subword_prefix is None,
            t.end_of_word_suffix is None,
            t.max_token_length is None,
            t.tau == Some(default_tau()),
            t.words.entries() == Seq::<(Seq<char>, u64)>::empty(),
    {
        Self::builder().build()
    }
}

impl PBPE {
    /// A trainer for this model, with nothing set.
    pub fn get_trainer(&self) -> (t: PbpeTrainer)
        ensures
            t.min_frequency == 0,
            t.vocab_size == 30000,
            t.show_progress,
            t.special_tokens@.len() == 0,
            t.limit_alphabet is None,
            t.initial_alphabet@.len() == 0,
            t.continuing_subword_prefix is None,
            t.end_of_word_suffix is None,
            t.max_token_length is None,
            t.tau == Some(default_tau()),
            t.words.entries() == Seq::<(Seq<char>, u64)>::empty(),
    {
        PbpeTrainer::default()
    }
}

impl PbpeTrainer {
    /// A trainer with this least frequency and vocabulary size, and every
    /// other option as a builder starts with it.
    pub fn new(min_frequency: u64, vocab_size: usize) -> (t: Self)
        ensures
            t.min_frequency == min_frequency,
            t.vocab_size == vocab_size,
            t.show_progress,
            t.special_tokens@.len() == 0,
            t.limit_alphabet is None,
            t.initial_alphabet@.len() == 0,
            t.continuing_subword_prefix is None,
            t.end_of_word_suffix is None,
            t.max_token_length is None,
            t.tau == Some(default_tau()),
            t.words.entries() == Seq::<(Seq<char>, u64)>::empty(),
    {
        Self::builder().min_frequency(min_frequency).vocab_size(vocab_size).build()
    }

    /// A builder with nothing set.
    pub fn builder() -> (b: PbpeTrainerBuilder)
        ensures
            is_default_config(b.config),
    {
        PbpeTrainerBuilder::new()
    }

    /// Whether progress is to be shown while training.
    pub fn should_show_progress(&self) -> (r: bool)
        ensures
            r == self.show_progress,
    {
        self.show_progress
    }

    /// The threshold of retraction: the one that is set, else one.
    pub open spec fn threshold(&self) -> Ratio {
        match self.tau {
            Some(t) => t,
            None => default_tau(),
        }
    }

    /// The byte length that no pair of neighbours may reach: the one that
    /// is set, else the greatest.
    pub open spec fn length_limit(&self) -> usize {
        match self.max_token_length {
            Some(l) => l,
            None => usize::MAX,
        }
    }

    /// What this trainer is to do.
    pub open spec fn plan(&self) -> Plan {
        Plan {
            special: contents(self.special_tokens@),
            initial: self.initial_alphabet@,
            limit: self.limit_alphabet,
            suffix: opt_text(self.end_of_word_suffix),
            settings: Settings {
                min_frequency: self.min_frequency,
                vocab_size: self.vocab_size,
                prefix: opt_text(self.continuing_subword_prefix),
                max_length: self.length_limit(),
                tau: self.threshold(),
            },
        }
    }

    /// The expansion of a token: the token itself if it is atomic or in use,
    /// else the expansions of its two parents in a row.
    pub fn split(token_id: u32, parents: &Vec<Pair>, id_active: &Vec<u8>, atomic_size: u32) -> (pieces:
        Vec<usize>)
        requires
            crate::pruning::parents_grounded(parents@, atomic_size),
            id_active@.len() == parents@.len(),
            token_id < atomic_size + parents@.len(),
        ensures
            pieces@ == crate::pruning::expansion(token_id, parents@, id_active@, atomic_size),
    {
        crate::pruning::split(token_id, parents, id_active, atomic_size)
    }

    /// What a round reads of this trainer.
    pub fn options(&self) -> (o: Options)
        ensures
            o@ == self.plan().settings,
    {
        Options {
            min_frequency: self.min_frequency,
            vocab_size: self.vocab_size,
            prefix: match &self.continuing_subword_prefix {
                Some(p) => Some(copy_string(p)),
                None => None,
            },
            max_length: match self.max_token_length {
                Some(l) => l,
                None => usize::MAX,
            },
            tau: match self.tau {
                Some(t) => t,
                None => Ratio { num: 1, den: 1 },
            },
        }
    }

    /// Runs the rounds until the vocabulary is full or no pair waits.
    pub fn run(start: Training, options: &Options) -> (r: Option<Training>)
        requires
            start.wf(),
        ensures
            match rounds(start@, options@) {
                Some(t) => r matches Some(s) && s@ == t && s.wf(),
                None => r is None,
            },
    {
        let ghost begun = start@;
        let mut state = start;
        let ghost cfg = options@;
        loop
            invariant
                state.wf(),
                begun == start@,
                cfg == options@,
                rounds(state@, cfg) == rounds(begun, cfg),
            ensures
                rounds(begun, cfg) == Some(state@),
                state.wf(),
            decreases log_limit() - state.log@.len(), state.queue.size(),
        {
            proof {
                lemma_merges_in(log_view(state.log@));
            }
            if (state.atomic as u128) + (state.n_merges as u128) >= (options.vocab_size as u128)
                + (state.n_splits as u128) {
                break ;
            }
            if state.queue.is_empty() {
                break ;
            }
            let ghost before = state@;
            let ok = state.round(options);
            proof {
                assert(goes_on(before, cfg));
                lemma_round_measure(before, cfg);
            }
            if !ok {
                return None;
            }
        }
        Some(state)
    }

    /// The strings of the special tokens.
    fn special_texts(&self) -> (texts: Vec<String>)
        ensures
            texts_view(texts@) == contents(self.special_tokens@),
    {
        let mut texts: Vec<String> = Vec::new();
        let mut i: usize = 0;
        while i < self.special_tokens.len()
            invariant
                i <= self.special_tokens@.len(),
                texts@.len() == i,
                texts_view(texts@) == contents(self.special_tokens@).take(i as int),
            decreases self.special_tokens@.len() - i,
        {
            let ghost before = texts@;
            texts.push(copy_string(&self.special_tokens[i].content));
            proof {
                let now = texts_view(texts@);
                let goal = contents(self.special_tokens@).take(i + 1);
                assert forall|j: int| 0 <= j < now.len() implies now[j] == goal[j] by {
                    if j < i {
                        assert(texts@[j] == before[j]);
                        assert(texts_view(before)[j] == contents(self.special_tokens@).take(
                            i as int,
                        )[j]);
                    }
                }
                assert(now =~= goal);
            }
            i = i + 1;
        }
        assert(contents(self.special_tokens@).take(i as int) =~= contents(self.special_tokens@));
        texts
    }

    /// The state with which the rounds begin.
    pub fn start(&self, word_counts: &StrMap<u64>) -> (r: Option<Training>)
        ensures
            match started(self.plan(), word_counts.entries()) {
                Some(t) => r matches Some(s) && s@ == t && s.wf(),
                None => r is None,
            },
    {
        let mut naming = Naming::new();
        let texts = self.special_texts();
        match name_all(&mut naming, &texts) {
            Ok(_) => {},
            Err(_) => {
                return None;
            },
        }
        let weights = weigh_corpus(word_counts, &self.initial_alphabet);
        match name_alphabet(&mut naming, &weights, self.limit_alphabet) {
            Ok(_) => {},
            Err(_) => {
                return None;
            },
        }
        let ghost names2 = naming@;
        let (words, counts) = match tokenize_words(
            word_counts,
            &mut naming,
            &self.continuing_subword_prefix,
            &self.end_of_word_suffix,
        ) {
            Ok(spelled) => spelled,
            Err(_) => {
                return None;
            },
        };
        if naming.len() > u32::MAX as usize {
            return None;
        }
        let atomic = naming.len() as u32;
        proof {
            lemma_spelled_lens(
                names2,
                word_counts.entries(),
                word_counts.entries().len() as int,
                opt_text(self.continuing_subword_prefix),
                opt_text(self.end_of_word_suffix),
            );
        }
        let (pair_counts, fresh) = match count_pairs(&words, &counts) {
            Some(tally) => tally,
            None => {
                return None;
            },
        };
        let mut state = Training {
            naming,
            atomic,
            active: Vec::new(),
            parents: Vec::new(),
            words,
            counts,
            pair_counts,
            fresh,
            queue: PairQueue::new(),
            merged: HashMap::new(),
            log: Vec::new(),
            n_merges: 0,
            n_splits: 0,
        };
        proof {
            assert(log_view(state.log@) =~= Seq::<HappeningView>::empty());
        }
        state.requeue(1);
        Some(state)
    }

    /// Trains on a corpus and puts the result into `model`: the vocabulary
    /// with its reverse, the merge table and the split table, and the prefix
    /// and the suffix of this trainer. Returns the special tokens as they
    /// were configured, each with its string and its flags. Fails if a
    /// number does not fit, the ids or the ranks run out, or the string of a
    /// merged pair is the name of a special token or of a character of the
    /// alphabet; the model then stays as it was.
    pub fn do_train(&self, word_counts: &StrMap<u64>, model: &mut PBPE) -> (r: Result<
        Vec<AddedToken>,
        Error,
    >)
        ensures
            match trained(self.plan(), word_counts.entries()) {
                Some(out) => {
                    &&& r matches Ok(tokens)
                    &&& added_view(tokens@) == added_view(self.special_tokens@)
                    &&& final(model).vocab.entries() == out.names
                    &&& final(model).vocab_r_map() == reversed(out.names)
                    &&& final(model).merges@ == out.merges
                    &&& final(model).splits@ == out.splits
                    &&& text_of(final(model).continuing_subword_prefix) == text_of(
                        self.continuing_subword_prefix,
                    )
                    &&& text_of(final(model).end_of_word_suffix) == text_of(self.end_of_word_suffix)
                },
                None => r == Err::<Vec<AddedToken>, Error>(Error::Overflow) && *final(model) == *old(
                    model,
                ),
            },
            final(model).unk_token == old(model).unk_token,
            final(model).fuse_unk == old(model).fuse_unk,
            final(model).byte_fallback == old(model).byte_fallback,
            final(model).ignore_merges == old(model).ignore_merges,
            final(model).cache == old(model).cache,
    {
        let mut state = match self.start(word_counts) {
            Some(s) => s,
            None => {
                return Err(Error::Overflow);
            },
        };
        let options = self.options();
        let state = match Self::run(state, &options) {
            Some(s) => s,
            None => {
                return Err(Error::Overflow);
            },
        };
        let (merges, splits) = conclude(&state.log);
        let vocab_r = reverse_vocab(&state.naming.ids);
        model.vocab = state.naming.ids;
        model.vocab_r = vocab_r;
        model.merges = merges;
        model.splits = splits;
        model.continuing_subword_prefix = match &self.continuing_subword_prefix {
            Some(p) => Some(copy_string(p)),
            None => None,
        };
        model.end_of_word_suffix = match &self.end_of_word_suffix {
            Some(s) => Some(copy_string(s)),
            None => None,
        };
        let mut tokens: Vec<AddedToken> = Vec::new();
        let mut i: usize = 0;
        while i < self.special_tokens.len()
            invariant
                i <= self.special_tokens@.len(),
                tokens@.len() == i,
                added_view(tokens@) == added_view(self.special_tokens@).take(i as int),
            decreases self.special_tokens@.len() - i,
        {
            let ghost before = tokens@;
            tokens.push(self.special_tokens[i].duplicate());
            proof {
                let now = added_view(tokens@);
                let goal = added_view(self.special_tokens@).take(i + 1);
                assert forall|j: int| 0 <= j < now.len() implies now[j] == goal[j] by {
                    if j < i {
                        assert(tokens@[j] == before[j]);
                        assert(added_view(before)[j] == added_view(self.special_tokens@).take(
                            i as int,
                        )[j]);
                    }
                }
                assert(now =~= goal);
            }
            i = i + 1;
        }
        assert(added_view(self.special_tokens@).take(i as int) =~= added_view(
            self.special_tokens@,
        ));
        Ok(tokens)
    }

    /// Trains on the corpus that was fed.
    pub fn train(&self, model: &mut PBPE) -> (r: Result<Vec<AddedToken>, Error>)
        ensures
            match trained(self.plan(), self.words.entries()) {
                Some(out) => {
                    &&& r matches Ok(tokens)
                    &&& added_view(tokens@) == added_view(self.special_tokens@)
                    &&& final(model).vocab.entries() == out.names
                    &&& final(model).vocab_r_map() == reversed(out.names)
                    &&& final(model).merges@ == out.merges
                    &&& final(model).splits@ == out.splits
                    &&& text_of(final(model).continuing_subword_prefix) == text_of(
                        self.continuing_subword_prefix,
                    )
                    &&& text_of(final(model).end_of_word_suffix) == text_of(self.end_of_word_suffix)
                },
                None => r == Err::<Vec<AddedToken>, Error>(Error::Overflow) && *final(model) == *old(
                    model,
                ),
            },
            final(model).unk_token == old(model).unk_token,
            final(model).fuse_unk == old(model).fuse_unk,
            final(model).byte_fallback == old(model).byte_fallback,
            final(model).ignore_merges == old(model).ignore_merges,
            final(model).cache == old(model).cache,
    {
        self.do_train(&self.words, model)
    }
}

/// Spelling gives every word a count.
pub proof fn lemma_spelled_lens(
    names: Names,
    corpus: Seq<(Seq<char>, u64)>,
    n: int,
    prefix: Option<Seq<char>>,
    suffix: Option<Seq<char>>,
)
    ensures
        spell_words(names, corpus, n, prefix, suffix) matches Some(s) ==> s.words.len()
            == s.counts.len(),
    decreases n,
{
    if n > 0 {
        lemma_spelled_lens(names, corpus, n - 1, prefix, suffix);
    }
}

/// The corpus after one more occurrence of the word `w`. `None` if its
/// count does not fit.
pub open spec fn word_counted(corpus: Seq<(Seq<char>, u64)>, w: Seq<char>) -> Option<
    Seq<(Seq<char>, u64)>,
> {
    match crate::strmap::position_of(corpus, w) {
        Some(i) => match corpus[i].1.checked_add(1) {
            Some(c) => Some(corpus.update(i, (w, c))),
            None => None,
        },
        None => Some(corpus.push((w, 1u64))),
    }
}

/// The corpus after the first `n` words of a sequence.
pub open spec fn words_counted(corpus: Seq<(Seq<char>, u64)>, words: Seq<Seq<char>>, n: int) -> Option<
    Seq<(Seq<char>, u64)>,
>
    decreases n,
{
    if n <= 0 {
        Some(corpus)
    } else {
        match words_counted(corpus, words, n - 1) {
            Some(c) => word_counted(c, words[n - 1]),
            None => None,
        }
    }
}

/// The words of the sequences as texts.
pub open spec fn sequences_view(sequences: Seq<Vec<String>>) -> Seq<Seq<Seq<char>>> {
    Seq::new(sequences.len(), |i: int| texts_view(sequences[i]@))
}

/// The corpus after the first `n` sequences.
pub open spec fn fed(corpus: Seq<(Seq<char>, u64)>, sequences: Seq<Seq<Seq<char>>>, n: int) -> Option<
    Seq<(Seq<char>, u64)>,
>
    decreases n,
{
    if n <= 0 {
        Some(corpus)
    } else {
        match fed(corpus, sequences, n - 1) {
            Some(c) => words_counted(c, sequences[n - 1], sequences[n - 1].len() as int),
            None => None,
        }
    }
}

/// Once a count has failed to fit, feeding stays failed.
pub proof fn lemma_words_counted_stays_none(corpus: Seq<(Seq<char>, u64)>, words: Seq<Seq<char>>, n: int)
    requires
        0 <= n <= words.len(),
        words_counted(corpus, words, n) is None,
    ensures
        words_counted(corpus, words, words.len() as int) is None,
    decreases words.len() - n,
{
    if n < words.len() {
        lemma_words_counted_stays_none(corpus, words, n + 1);
    }
}

/// Once a count has failed to fit, feeding stays failed.
pub proof fn lemma_fed_stays_none(corpus: Seq<(Seq<char>, u64)>, sequences: Seq<Seq<Seq<char>>>, n: int)
    requires
        0 <= n <= sequences.len(),
        fed(corpus, sequences, n) is None,
    ensures
        fed(corpus, sequences, sequences.len() as int) is None,
    decreases sequences.len() - n,
{
    if n < sequences.len() {
        lemma_fed_stays_none(corpus, sequences, n + 1);
    }
}

impl PbpeTrainer {
    /// Takes the words of the sequences as the corpus: each word with the
    /// number of its occurrences, in the order in which the words first come.
    pub fn feed(&mut self, sequences: &Vec<Vec<String>>) -> (r: Result<(), Error>)
        ensures
            match fed(Seq::empty(), sequences_view(sequences@), sequences@.len() as int) {
                Some(c) => r is Ok && final(self).words.entries() == c,
                None => r == Err::<(), Error>(Error::Overflow) && final(self).words == old(self).words,
            },
            final(self).min_frequency == old(self).min_frequency,
            final(self).vocab_size == old(self).vocab_size,
            final(self).show_progress == old(self).show_progress,
            final(self).special_tokens == old(self).special_tokens,
            final(self).limit_alphabet == old(self).limit_alphabet,
            final(self).initial_alphabet == old(self).initial_alphabet,
            final(self).continuing_subword_prefix == old(self).continuing_subword_prefix,
            final(self).end_of_word_suffix == old(self).end_of_word_suffix,
            final(self).max_token_length == old(self).max_token_length,
            final(self).tau == old(self).tau,
    {
        let mut words: StrMap<u64> = StrMap::new();
        let ghost all = sequences_view(sequences@);
        let mut i: usize = 0;
        while i < sequences.len()
            invariant
                i <= sequences@.len(),
                all == sequences_view(sequences@),
                self.words == old(self).words,
                fed(Seq::empty(), all, i as int) == Some(words.entries()),
            decreases sequences@.len() - i,
        {
            let sequence = &sequences[i];
            let ghost start = words.entries();
            let ghost texts = texts_view(sequence@);
            let mut j: usize = 0;
            while j < sequence.len()
                invariant
                    j <= sequence@.len(),
                    i < sequences@.len(),
                    all == sequences_view(sequences@),
                    all.len() == sequences@.len(),
                    texts == texts_view(sequence@),
                    texts == all[i as int],
                    fed(Seq::empty(), all, i as int) == Some(start),
                    self.words == old(self).words,
                    words_counted(start, texts, j as int) == Some(words.entries()),
                decreases sequence@.len() - j,
            {
                let word = &sequence[j];
                let count = match words.get(word.as_str()) {
                    Some(c) => match c.checked_add(1) {
                        Some(c) => c,
                        None => {
                            proof {
                                crate::strmap::lemma_position_of(words.entries(), word@);
                                words.lemma_get(word@);
                                lemma_words_counted_stays_none(start, texts, j + 1);
                                lemma_fed_stays_none(Seq::empty(), all, i + 1);
                            }
                            return Err(Error::Overflow);
                        },
                    },
                    None => 1,
                };
                proof {
                    crate::strmap::lemma_position_of(words.entries(), word@);
                    words.lemma_get(word@);
                }
                words.insert(copy_string(word), count);
                j = j + 1;
            }
            i = i + 1;
        }
        self.words = words;
        Ok(())
    }
}

} // verus!
