//! The stored form of a model: the fields of the JSON object in which a
//! model is kept, each present or not, and the way from a model to its
//! record and back.

use crate::model::{option_text, reversed, strings_view, Error, PbpeBuilder, Vocab, PBPE};
use crate::pairtext::{json_to_pair, pair_of_text, pair_text, pair_to_json, MaybePair};
use crate::replay::copy_ids;
use crate::strmap::{lemma_position_of, position_of, StrMap};
use crate::tables::{
    lemma_table_of, split_entries_view, table_of, MergeEntries, MergeMap, SplitEntries, SplitMap,
};
use crate::text::copy_string;
use crate::word::{Pair, Symbol};
use std::collections::HashMap;
use vstd::prelude::*;
use vstd::string::*;

verus! {

broadcast use vstd::std_specs::hash::group_hash_axioms;

/// The fields of a stored model. A field that the store does not have, or
/// has as `null`, is `None`.
pub struct ModelRecord {
    /// The field `type`.
    pub model_type: Option<String>,
    pub unk_token: Option<String>,
    pub continuing_subword_prefix: Option<String>,
    pub end_of_word_suffix: Option<String>,
    pub fuse_unk: Option<bool>,
    pub byte_fallback: Option<bool>,
    pub ignore_merges: Option<bool>,
    /// Token strings with their ids.
    pub vocab: Option<Vec<(String, u32)>>,
    /// The texts of pairs with the merges of each.
    pub merges: Option<Vec<(String, Vec<(u32, u32)>)>>,
    /// Token strings with the splits of each.
    pub splits: Option<Vec<(String, Vec<(u32, Vec<u32>)>)>>,
}

/// A record as mathematical values.
pub struct RecordView {
    pub model_type: Option<Seq<char>>,
    pub unk_token: Option<Seq<char>>,
    pub continuing_subword_prefix: Option<Seq<char>>,
    pub end_of_word_suffix: Option<Seq<char>>,
    pub fuse_unk: Option<bool>,
    pub byte_fallback: Option<bool>,
    pub ignore_merges: Option<bool>,
    pub vocab: Option<Seq<(Seq<char>, u32)>>,
    pub merges: Option<Seq<(Seq<char>, MergeEntries)>>,
    pub splits: Option<Seq<(Seq<char>, SplitEntries)>>,
}

/// Stored vocabulary items as mathematical values.
pub open spec fn vocab_items_view(items: Seq<(String, u32)>) -> Seq<(Seq<char>, u32)> {
    Seq::new(items.len(), |i: int| (items[i].0@, items[i].1))
}

/// Stored merges as mathematical values.
pub open spec fn merge_items_view(items: Seq<(String, Vec<(u32, u32)>)>) -> Seq<
    (Seq<char>, MergeEntries),
> {
    Seq::new(items.len(), |i: int| (items[i].0@, items[i].1@))
}

/// Stored splits as mathematical values.
pub open spec fn split_items_view(items: Seq<(String, Vec<(u32, Vec<u32>)>)>) -> Seq<
    (Seq<char>, SplitEntries),
> {
    Seq::new(items.len(), |i: int| (items[i].0@, split_entries_view(items[i].1@)))
}

impl View for ModelRecord {
    type V = RecordView;

    open spec fn view(&self) -> RecordView {
        RecordView {
            model_type: option_text(self.model_type),
            unk_token: option_text(self.unk_token),
            continuing_subword_prefix: option_text(self.continuing_subword_prefix),
            end_of_word_suffix: option_text(self.end_of_word_suffix),
            fuse_unk: self.fuse_unk,
            byte_fallback: self.byte_fallback,
            ignore_merges: self.ignore_merges,
            vocab: match self.vocab {
                Some(v) => Some(vocab_items_view(v@)),
                None => None,
            },
            merges: match self.merges {
                Some(v) => Some(merge_items_view(v@)),
                None => None,
            },
            splits: match self.splits {
                Some(v) => Some(split_items_view(v@)),
                None => None,
            },
        }
    }
}

/// The name of the model in the field `type`.
pub open spec fn model_name() -> Seq<char> {
    seq!['P', 'B', 'P', 'E']
}

/// The tokens of the ids below `n` that have one, each with its id, in the
/// order of the ids.
pub open spec fn ordered_vocab(vocab_r: Map<u32, Seq<char>>, n: int) -> Seq<(Seq<char>, u32)>
    decreases n,
{
    if n <= 0 {
        Seq::empty()
    } else {
        let head = ordered_vocab(vocab_r, n - 1);
        if n - 1 <= u32::MAX && vocab_r.contains_key((n - 1) as u32) {
            head.push((vocab_r[(n - 1) as u32], (n - 1) as u32))
        } else {
            head
        }
    }
}

/// The merges of a table as they are stored: each pair as its text.
pub open spec fn stored_merges(entries: Seq<(Pair, MergeEntries)>) -> Seq<(Seq<char>, MergeEntries)> {
    Seq::new(entries.len(), |i: int| (pair_text(entries[i].0), entries[i].1))
}

/// The splits of a table as they are stored: each token as its string.
pub open spec fn stored_splits(entries: Seq<(u32, SplitEntries)>, vocab_r: Map<u32, Seq<char>>) -> Seq<
    (Seq<char>, SplitEntries),
> {
    Seq::new(entries.len(), |i: int| (vocab_r[entries[i].0], entries[i].1))
}

/// Every token that has splits has a string.
pub open spec fn splits_have_strings(entries: Seq<(u32, SplitEntries)>, vocab_r: Map<u32, Seq<char>>) -> bool {
    forall|i: int| 0 <= i < entries.len() ==> vocab_r.contains_key((#[trigger] entries[i]).0)
}

/// The vocabulary after `key` has been given the id `id`: a string that is
/// there keeps its place.
pub open spec fn put(entries: Seq<(Seq<char>, u32)>, key: Seq<char>, id: u32) -> Seq<(Seq<char>, u32)> {
    match position_of(entries, key) {
        Some(i) => entries.update(i, (key, id)),
        None => entries.push((key, id)),
    }
}

/// The vocabulary of the first `n` stored items.
pub open spec fn vocab_from(items: Seq<(Seq<char>, u32)>, n: int) -> Seq<(Seq<char>, u32)>
    decreases n,
{
    if n <= 0 {
        Seq::empty()
    } else {
        put(vocab_from(items, n - 1), items[n - 1].0, items[n - 1].1)
    }
}

/// The merge table of the first `n` stored items, where `pairs` holds for
/// each item the pair that its text stands for. `Err` with the index of the
/// first item whose text stands for no pair.
pub open spec fn merges_from(
    items: Seq<(Seq<char>, MergeEntries)>,
    pairs: Seq<MaybePair>,
    n: int,
) -> Result<Map<Pair, MergeEntries>, int>
    decreases n,
{
    if n <= 0 {
        Ok(Map::empty())
    } else {
        match merges_from(items, pairs, n - 1) {
            Err(i) => Err(i),
            Ok(m) => match pairs[n - 1] {
                Some(p) => Ok(m.insert(p, items[n - 1].1)),
                None => Err(n - 1),
            },
        }
    }
}

/// The split table of the first `n` stored items. `Err` with the index of
/// the first item whose token is not in the vocabulary.
pub open spec fn splits_from(
    items: Seq<(Seq<char>, SplitEntries)>,
    vocab: Map<Seq<char>, u32>,
    n: int,
) -> Result<Map<u32, SplitEntries>, int>
    decreases n,
{
    if n <= 0 {
        Ok(Map::empty())
    } else {
        match splits_from(items, vocab, n - 1) {
            Err(i) => Err(i),
            Ok(m) => if vocab.contains_key(items[n - 1].0) {
                Ok(m.insert(vocab[items[n - 1].0], items[n - 1].1))
            } else {
                Err(n - 1)
            },
        }
    }
}

/// What loading makes of a record.
pub enum Loaded {
    /// A model of these parts.
    Model {
        vocab: Seq<(Seq<char>, u32)>,
        merges: Map<Pair, MergeEntries>,
        splits: Map<u32, SplitEntries>,
    },
    /// The field `type` holds another name.
    WrongType(Seq<char>),
    /// A field is missing.
    Missing(Seq<char>),
    /// The text of a merge stands for no pair.
    NoPair(Seq<char>),
    /// The token of a split is not in the vocabulary.
    NoToken(Seq<char>),
}

/// The name of the field of the vocabulary.
pub open spec fn field_vocab() -> Seq<char> {
    seq!['v', 'o', 'c', 'a', 'b']
}

/// The name of the field of the merges.
pub open spec fn field_merges() -> Seq<char> {
    seq!['m', 'e', 'r', 'g', 'e', 's']
}

/// The name of the field of the splits.
pub open spec fn field_splits() -> Seq<char> {
    seq!['s', 'p', 'l', 'i', 't', 's']
}

/// What loading makes of a record, where `pairs` holds for each stored merge
/// the pair that its text stands for. A wrong type is found first, then a
/// missing vocabulary, missing merges, missing splits, then a merge whose
/// text stands for no pair, then a split whose token is not in the
/// vocabulary.
pub open spec fn loaded(r: RecordView, pairs: Seq<MaybePair>) -> Loaded {
    if r.model_type is Some && r.model_type->0 != model_name() {
        Loaded::WrongType(r.model_type->0)
    } else if r.vocab is None {
        Loaded::Missing(field_vocab())
    } else if r.merges is None {
        Loaded::Missing(field_merges())
    } else if r.splits is None {
        Loaded::Missing(field_splits())
    } else {
        let vocab = vocab_from(r.vocab->0, r.vocab->0.len() as int);
        match merges_from(r.merges->0, pairs, r.merges->0.len() as int) {
            Err(i) => Loaded::NoPair(r.merges->0[i].0),
            Ok(merges) => match splits_from(
                r.splits->0,
                crate::strmap::entries_map(vocab),
                r.splits->0.len() as int,
            ) {
                Err(i) => Loaded::NoToken(r.splits->0[i].0),
                Ok(splits) => Loaded::Model { vocab, merges, splits },
            },
        }
    }
}

/// The pairs that the texts of the stored merges stand for.
pub open spec fn pairs_of(items: Seq<(Seq<char>, MergeEntries)>) -> Seq<MaybePair> {
    Seq::new(items.len(), |i: int| pair_of_text(items[i].0))
}

/// Whether a loaded model is what `loaded` says, with the options of the
/// record, an option that the record does not have being off or unset.
pub open spec fn matches_loaded(r: Result<PBPE, Error>, record: RecordView, what: Loaded) -> bool {
    match what {
        Loaded::Model { vocab, merges, splits } => {
            &&& r matches Ok(m)
            &&& m.vocab.entries() == vocab
            &&& m.vocab_r_map() == reversed(vocab)
            &&& m.merges@ == merges
            &&& m.splits@ == splits
            &&& m.cache_view() == Some(Map::<Seq<char>, Seq<Symbol>>::empty())
            &&& option_text(m.unk_token) == record.unk_token
            &&& option_text(m.continuing_subword_prefix) == record.continuing_subword_prefix
            &&& option_text(m.end_of_word_suffix) == record.end_of_word_suffix
            &&& m.fuse_unk == (record.fuse_unk == Some(true))
            &&& m.byte_fallback == (record.byte_fallback == Some(true))
            &&& m.ignore_merges == (record.ignore_merges == Some(true))
        },
        Loaded::WrongType(name) => r matches Err(Error::UnexpectedType(found, wanted)) && found@
            == name && wanted@ == model_name(),
        Loaded::Missing(field) => r matches Err(Error::MissingField(f)) && f@ == field,
        Loaded::NoPair(text) => r matches Err(Error::UnexpectedType(found, wanted)) && found@
            == text && wanted@ == pair_word(),
        Loaded::NoToken(token) => r matches Err(Error::TokenNotInVocab(t)) && t@ == token,
    }
}

/// What a merge text was expected to be.
pub open spec fn pair_word() -> Seq<char> {
    seq!['p', 'a', 'i', 'r']
}

/// The name of the model.
fn type_string() -> (s: String)
    ensures
        s@ == model_name(),
{
    let mut s = String::new();
    s.push('P');
    s.push('B');
    s.push('P');
    s.push('E');
    assert(s@ =~= model_name());
    s
}

/// What a merge text was expected to be.
fn pair_string() -> (s: String)
    ensures
        s@ == pair_word(),
{
    let mut s = String::new();
    s.push('p');
    s.push('a');
    s.push('i');
    s.push('r');
    assert(s@ =~= pair_word());
    s
}

/// The name of the field of the vocabulary.
fn vocab_string() -> (s: String)
    ensures
        s@ == field_vocab(),
{
    let mut s = String::new();
    s.push('v');
    s.push('o');
    s.push('c');
    s.push('a');
    s.push('b');
    assert(s@ =~= field_vocab());
    s
}

/// The name of the field of the merges.
fn merges_string() -> (s: String)
    ensures
        s@ == field_merges(),
{
    let mut s = String::new();
    s.push('m');
    s.push('e');
    s.push('r');
    s.push('g');
    s.push('e');
    s.push('s');
    assert(s@ =~= field_merges());
    s
}

/// The name of the field of the splits.
fn splits_string() -> (s: String)
    ensures
        s@ == field_splits(),
{
    let mut s = String::new();
    s.push('s');
    s.push('p');
    s.push('l');
    s.push('i');
    s.push('t');
    s.push('s');
    assert(s@ =~= field_splits());
    s
}

/// A copy of a list of merges.
pub fn copy_merges(list: &Vec<(u32, u32)>) -> (out: Vec<(u32, u32)>)
    ensures
        out@ == list@,
{
    let mut out: Vec<(u32, u32)> = Vec::new();
    let mut i: usize = 0;
    while i < list.len()
        invariant
            i <= list@.len(),
            out@ == list@.take(i as int),
        decreases list@.len() - i,
    {
        out.push(list[i]);
        assert(out@ =~= list@.take(i + 1));
        i = i + 1;
    }
    assert(list@.take(i as int) =~= list@);
    out
}

/// A copy of a list of splits.
pub fn copy_splits(list: &Vec<(u32, Vec<u32>)>) -> (out: Vec<(u32, Vec<u32>)>)
    ensures
        split_entries_view(out@) == split_entries_view(list@),
{
    let mut out: Vec<(u32, Vec<u32>)> = Vec::new();
    let mut i: usize = 0;
    while i < list.len()
        invariant
            i <= list@.len(),
            out@.len() == i,
            split_entries_view(out@) == split_entries_view(list@).take(i as int),
        decreases list@.len() - i,
    {
        let ghost before = out@;
        out.push((list[i].0, copy_ids(&list[i].1)));
        proof {
            let now = split_entries_view(out@);
            let goal = split_entries_view(list@).take(i + 1);
            assert forall|j: int| 0 <= j < now.len() implies now[j] == goal[j] by {
                if j < i {
                    assert(out@[j] == before[j]);
                    assert(split_entries_view(before)[j] == split_entries_view(list@).take(
                        i as int,
                    )[j]);
                }
            }
            assert(now =~= goal);
        }
        i = i + 1;
    }
    assert(split_entries_view(list@).take(i as int) =~= split_entries_view(list@));
    out
}

/// The tokens of a reversed vocabulary with their ids, in the order of the
/// ids, for the ids below the number of tokens.
pub fn ordered_vocab_items(vocab_r: &HashMap<u32, String>) -> (items: Vec<(String, u32)>)
    ensures
        vocab_items_view(items@) == ordered_vocab(strings_view(vocab_r@), vocab_r@.len() as int),
{
    let n = vocab_r.len();
    let mut items: Vec<(String, u32)> = Vec::new();
    let mut i: usize = 0;
    proof {
        assert(vocab_items_view(items@) =~= Seq::<(Seq<char>, u32)>::empty());
    }
    while i < n
        invariant
            i <= n,
            n == vocab_r@.len(),
            items@.len() <= i,
            vocab_items_view(items@) == ordered_vocab(strings_view(vocab_r@), i as int),
        decreases n - i,
    {
        if i <= u32::MAX as usize {
            let id = i as u32;
            match vocab_r.get(&id) {
                Some(token) => {
                    let ghost before = items@;
                    items.push((copy_string(token), id));
                    proof {
                        let now = vocab_items_view(items@);
                        let goal = ordered_vocab(strings_view(vocab_r@), i + 1);
                        assert forall|j: int| 0 <= j < now.len() implies now[j] == goal[j] by {
                            if j < before.len() {
                                assert(items@[j] == before[j]);
                                assert(vocab_items_view(before)[j] == ordered_vocab(
                                    strings_view(vocab_r@),
                                    i as int,
                                )[j]);
                            }
                        }
                        assert(now =~= goal);
                    }
                },
                None => {},
            }
        }
        i = i + 1;
    }
    items
}

impl PBPE {
    /// The record of this model: its options, its vocabulary in the order of
    /// the ids, its merges under the texts of their pairs, and its splits
    /// under the strings of their tokens.
    pub fn to_record(&self) -> (r: ModelRecord)
        requires
            splits_have_strings(self.splits.entries(), self.vocab_r_map()),
        ensures
            r@ == (RecordView {
                model_type: Some(model_name()),
                unk_token: option_text(self.unk_token),
                continuing_subword_prefix: option_text(self.continuing_subword_prefix),
                end_of_word_suffix: option_text(self.end_of_word_suffix),
                fuse_unk: Some(self.fuse_unk),
                byte_fallback: Some(self.byte_fallback),
                ignore_merges: Some(self.ignore_merges),
                vocab: Some(ordered_vocab(self.vocab_r_map(), self.vocab_r@.len() as int)),
                merges: Some(stored_merges(self.merges.entries())),
                splits: Some(stored_splits(self.splits.entries(), self.vocab_r_map())),
            }),
    {
        let vocab = ordered_vocab_items(&self.vocab_r);
        let mut merges: Vec<(String, Vec<(u32, u32)>)> = Vec::new();
        let n = self.merges.len();
        let mut i: usize = 0;
        while i < n
            invariant
                i <= n,
                n == self.merges.entries().len(),
                merges@.len() == i,
                merge_items_view(merges@) == stored_merges(self.merges.entries()).take(i as int),
            decreases n - i,
        {
            let (pair, list) = self.merges.entry(i);
            let ghost before = merges@;
            merges.push((pair_to_json(pair), copy_merges(list)));
            proof {
                let now = merge_items_view(merges@);
                let goal = stored_merges(self.merges.entries()).take(i + 1);
                assert forall|j: int| 0 <= j < now.len() implies now[j] == goal[j] by {
                    if j < i {
                        assert(merges@[j] == before[j]);
                        assert(merge_items_view(before)[j] == stored_merges(
                            self.merges.entries(),
                        ).take(i as int)[j]);
                    }
                }
                assert(now =~= goal);
            }
            i = i + 1;
        }
        let mut splits: Vec<(String, Vec<(u32, Vec<u32>)>)> = Vec::new();
        let m = self.splits.len();
        let mut k: usize = 0;
        while k < m
            invariant
                k <= m,
                m == self.splits.entries().len(),
                splits@.len() == k,
                splits_have_strings(self.splits.entries(), self.vocab_r_map()),
                split_items_view(splits@) == stored_splits(
                    self.splits.entries(),
                    self.vocab_r_map(),
                ).take(k as int),
            decreases m - k,
        {
            let (id, list) = self.splits.entry(k);
            assert(self.vocab_r_map().contains_key(self.splits.entries()[k as int].0));
            let token = match self.vocab_r.get(&id) {
                Some(t) => copy_string(t),
                None => String::new(),
            };
            let ghost before = splits@;
            splits.push((token, copy_splits(list)));
            proof {
                let now = split_items_view(splits@);
                let goal = stored_splits(self.splits.entries(), self.vocab_r_map()).take(k + 1);
                assert forall|j: int| 0 <= j < now.len() implies now[j] == goal[j] by {
                    if j < k {
                        assert(splits@[j] == before[j]);
                        assert(split_items_view(before)[j] == stored_splits(
                            self.splits.entries(),
                            self.vocab_r_map(),
                        ).take(k as int)[j]);
                    }
                }
                assert(now =~= goal);
            }
            k = k + 1;
        }
        proof {
            assert(stored_merges(self.merges.entries()).take(n as int) =~= stored_merges(
                self.merges.entries(),
            ));
            assert(stored_splits(self.splits.entries(), self.vocab_r_map()).take(m as int)
                =~= stored_splits(self.splits.entries(), self.vocab_r_map()));
        }
        ModelRecord {
            model_type: Some(type_string()),
            unk_token: copy_option(&self.unk_token),
            continuing_subword_prefix: copy_option(&self.continuing_subword_prefix),
            end_of_word_suffix: copy_option(&self.end_of_word_suffix),
            fuse_unk: Some(self.fuse_unk),
            byte_fallback: Some(self.byte_fallback),
            ignore_merges: Some(self.ignore_merges),
            vocab: Some(vocab),
            merges: Some(merges),
            splits: Some(splits),
        }
    }

    /// The model of a record, where `pairs` holds for each stored merge the
    /// pair that its text stands for.
    pub fn from_parsed_record(record: ModelRecord, pairs: &Vec<MaybePair>) -> (r: Result<PBPE, Error>)
        requires
            record.merges matches Some(items) ==> pairs@.len() == items@.len(),
        ensures
            matches_loaded(r, record@, loaded(record@, pairs@)),
    {
        match &record.model_type {
            Some(name) => {
                let wanted = type_string();
                if !crate::strmap::str_eq(name.as_str(), wanted.as_str()) {
                    return Err(Error::UnexpectedType(copy_string(name), wanted));
                }
            },
            None => {},
        }
        let vocab_items = match &record.vocab {
            Some(v) => v,
            None => {
                return Err(Error::MissingField(vocab_string()));
            },
        };
        let merge_items = match &record.merges {
            Some(v) => v,
            None => {
                return Err(Error::MissingField(merges_string()));
            },
        };
        let split_items = match &record.splits {
            Some(v) => v,
            None => {
                return Err(Error::MissingField(splits_string()));
            },
        };
        let vocab = load_vocab(vocab_items);
        let merges = match load_merges(merge_items, pairs) {
            Ok(m) => m,
            Err(i) => {
                return Err(Error::UnexpectedType(copy_string(&merge_items[i].0), pair_string()));
            },
        };
        let splits = match load_splits(split_items, &vocab) {
            Ok(s) => s,
            Err(i) => {
                return Err(Error::TokenNotInVocab(copy_string(&split_items[i].0)));
            },
        };
        let mut builder = PbpeBuilder::new().vocab_and_merges_and_splits(vocab, merges, splits);
        match &record.unk_token {
            Some(t) => {
                builder = builder.unk_token(copy_string(t));
            },
            None => {},
        }
        match &record.continuing_subword_prefix {
            Some(t) => {
                builder = builder.continuing_subword_prefix(copy_string(t));
            },
            None => {},
        }
        match &record.end_of_word_suffix {
            Some(t) => {
                builder = builder.end_of_word_suffix(copy_string(t));
            },
            None => {},
        }
        match record.fuse_unk {
            Some(b) => {
                builder = builder.fuse_unk(b);
            },
            None => {},
        }
        match record.byte_fallback {
            Some(b) => {
                builder = builder.byte_fallback(b);
            },
            None => {},
        }
        match record.ignore_merges {
            Some(b) => {
                builder = builder.ignore_merges(b);
            },
            None => {},
        }
        builder.build()
    }

    /// Reads the pairs from the texts under which the merges of a record
    /// stand: each text gives what it is read as, and the text of a pair
    /// gives that pair.
    pub fn parse_pairs(record: &ModelRecord) -> (pairs: Vec<MaybePair>)
        ensures
            pairs@ == (match record@.merges {
                Some(items) => pairs_of(items),
                None => Seq::empty(),
            }),
            record@.merges matches Some(items) ==> forall|i: int, pair: Pair|
                #![trigger items[i], pair_text(pair)]
                0 <= i < items.len() && items[i].0 == pair_text(pair) ==> pairs@[i] == Some(pair),
    {
        let mut pairs: Vec<MaybePair> = Vec::new();
        match &record.merges {
            Some(items) => {
                let mut i: usize = 0;
                while i < items.len()
                    invariant
                        i <= items@.len(),
                        pairs@ == pairs_of(merge_items_view(items@)).take(i as int),
                        forall|j: int, pair: Pair|
                            #![trigger merge_items_view(items@)[j], pair_text(pair)]
                            0 <= j < i && merge_items_view(items@)[j].0 == pair_text(pair)
                                ==> pairs@[j] == Some(pair),
                    decreases items@.len() - i,
                {
                    let ghost before = pairs@;
                    pairs.push(json_to_pair(items[i].0.as_str()));
                    assert(pairs@ =~= pairs_of(merge_items_view(items@)).take(i + 1));
                    assert forall|j: int, pair: Pair|
                        #![trigger merge_items_view(items@)[j], pair_text(pair)]
                        0 <= j < i + 1 && merge_items_view(items@)[j].0 == pair_text(
                            pair,
                        ) implies pairs@[j] == Some(pair) by {
                        if j < i {
                            assert(pairs@[j] == before[j]);
                        }
                    }
                    i = i + 1;
                }
                assert(pairs_of(merge_items_view(items@)).take(i as int) =~= pairs_of(
                    merge_items_view(items@),
                ));
            },
            None => {},
        }
        pairs
    }

    /// The model of a record.
    pub fn from_record(record: ModelRecord) -> (r: Result<PBPE, Error>)
        ensures
            matches_loaded(
                r,
                record@,
                loaded(
                    record@,
                    match record@.merges {
                        Some(items) => pairs_of(items),
                        None => Seq::empty(),
                    },
                ),
            ),
    {
        let pairs = Self::parse_pairs(&record);
        Self::from_parsed_record(record, &pairs)
    }
}

/// A copy of an optional string.
pub fn copy_option(o: &Option<String>) -> (r: Option<String>)
    ensures
        option_text(r) == option_text(*o),
{
    match o {
        Some(s) => Some(copy_string(s)),
        None => None,
    }
}

/// The vocabulary of the stored items.
pub fn load_vocab(items: &Vec<(String, u32)>) -> (vocab: Vocab)
    ensures
        vocab.entries() == vocab_from(vocab_items_view(items@), items@.len() as int),
{
    let mut vocab: Vocab = StrMap::new();
    let mut i: usize = 0;
    while i < items.len()
        invariant
            i <= items@.len(),
            vocab.entries() == vocab_from(vocab_items_view(items@), i as int),
        decreases items@.len() - i,
    {
        vocab.insert(copy_string(&items[i].0), items[i].1);
        i = i + 1;
    }
    vocab
}

/// The merge table of the stored items.
pub fn load_merges(items: &Vec<(String, Vec<(u32, u32)>)>, pairs: &Vec<MaybePair>) -> (r: Result<
    MergeMap,
    usize,
>)
    requires
        pairs@.len() == items@.len(),
    ensures
        match r {
            Ok(m) => merges_from(merge_items_view(items@), pairs@, items@.len() as int) == Ok::<
                Map<Pair, MergeEntries>,
                int,
            >(m@),
            Err(i) => i < items@.len() && merges_from(
                merge_items_view(items@),
                pairs@,
                items@.len() as int,
            ) == Err::<Map<Pair, MergeEntries>, int>(i as int),
        },
{
    let mut merges = MergeMap::new();
    let mut i: usize = 0;
    while i < items.len()
        invariant
            i <= items@.len(),
            pairs@.len() == items@.len(),
            merges_from(merge_items_view(items@), pairs@, i as int) == Ok::<
                Map<Pair, MergeEntries>,
                int,
            >(merges@),
        decreases items@.len() - i,
    {
        match pairs[i] {
            Some(p) => {
                merges.insert(p, copy_merges(&items[i].1));
            },
            None => {
                proof {
                    lemma_merges_from_stays(merge_items_view(items@), pairs@, i + 1);
                }
                return Err(i);
            },
        }
        i = i + 1;
    }
    Ok(merges)
}

/// Once a text has stood for no pair, loading stays failed at it.
pub proof fn lemma_merges_from_stays(items: Seq<(Seq<char>, MergeEntries)>, pairs: Seq<MaybePair>, n: int)
    requires
        0 <= n <= items.len(),
        merges_from(items, pairs, n) is Err,
    ensures
        merges_from(items, pairs, items.len() as int) == merges_from(items, pairs, n),
    decreases items.len() - n,
{
    if n < items.len() {
        lemma_merges_from_stays(items, pairs, n + 1);
    }
}

/// The split table of the stored items.
pub fn load_splits(items: &Vec<(String, Vec<(u32, Vec<u32>)>)>, vocab: &Vocab) -> (r: Result<
    SplitMap,
    usize,
>)
    ensures
        match r {
            Ok(m) => splits_from(split_items_view(items@), vocab@, items@.len() as int) == Ok::<
                Map<u32, SplitEntries>,
                int,
            >(m@),
            Err(i) => i < items@.len() && splits_from(
                split_items_view(items@),
                vocab@,
                items@.len() as int,
            ) == Err::<Map<u32, SplitEntries>, int>(i as int),
        },
{
    let mut splits = SplitMap::new();
    let mut i: usize = 0;
    while i < items.len()
        invariant
            i <= items@.len(),
            splits_from(split_items_view(items@), vocab@, i as int) == Ok::<
                Map<u32, SplitEntries>,
                int,
            >(splits@),
        decreases items@.len() - i,
    {
        match vocab.get(items[i].0.as_str()) {
            Some(id) => {
                splits.insert(*id, copy_splits(&items[i].1));
            },
            None => {
                proof {
                    lemma_splits_from_stays(split_items_view(items@), vocab@, i + 1);
                }
                return Err(i);
            },
        }
        i = i + 1;
    }
    Ok(splits)
}

/// Once a token has been missing, loading stays failed at it.
pub proof fn lemma_splits_from_stays(
    items: Seq<(Seq<char>, SplitEntries)>,
    vocab: Map<Seq<char>, u32>,
    n: int,
)
    requires
        0 <= n <= items.len(),
        splits_from(items, vocab, n) is Err,
    ensures
        splits_from(items, vocab, items.len() as int) == splits_from(items, vocab, n),
    decreases items.len() - n,
{
    if n < items.len() {
        lemma_splits_from_stays(items, vocab, n + 1);
    }
}

/// The pairs of a merge table, each as the pair that its stored text is read
/// as when it is read back.
pub open spec fn pairs_in(entries: Seq<(Pair, MergeEntries)>) -> Seq<MaybePair> {
    Seq::new(entries.len(), |i: int| Some(entries[i].0))
}

/// The ids of a model are the numbers from zero up, each for one token: the
/// vocabulary and its reverse lead back and forth, and every id is below the
/// number of tokens.
pub open spec fn vocab_is_sound(vocab: Map<Seq<char>, u32>, vocab_r: Map<u32, Seq<char>>, n: int) -> bool {
    &&& forall|k: Seq<char>| #[trigger]
        vocab.contains_key(k) ==> vocab_r.contains_key(vocab[k]) && vocab_r[vocab[k]] == k
    &&& forall|id: u32| #[trigger]
        vocab_r.contains_key(id) ==> vocab.contains_key(vocab_r[id]) && vocab[vocab_r[id]] == id
            && id < n
}

/// What the ordered vocabulary holds: for each id below `n` that has a
/// token, the token with the id, the ids rising.
pub proof fn lemma_ordered_vocab(vocab_r: Map<u32, Seq<char>>, n: int)
    ensures
        forall|j: int|
            0 <= j < ordered_vocab(vocab_r, n).len() ==> {
                let e = #[trigger] ordered_vocab(vocab_r, n)[j];
                e.1 < n && vocab_r.contains_key(e.1) && vocab_r[e.1] == e.0
            },
        forall|id: u32|
            id < n && vocab_r.contains_key(id) ==> exists|j: int|
                0 <= j < ordered_vocab(vocab_r, n).len() && #[trigger] ordered_vocab(vocab_r, n)[j]
                    == (vocab_r[id], id),
    decreases n,
{
    if n > 0 {
        lemma_ordered_vocab(vocab_r, n - 1);
        let head = ordered_vocab(vocab_r, n - 1);
        let all = ordered_vocab(vocab_r, n);
        assert forall|j: int| 0 <= j < all.len() implies ({
            let e = #[trigger] all[j];
            e.1 < n && vocab_r.contains_key(e.1) && vocab_r[e.1] == e.0
        }) by {
            if j < head.len() {
                assert(all[j] == head[j]);
            }
        }
        assert forall|id: u32| id < n && vocab_r.contains_key(id) implies exists|j: int|
            0 <= j < all.len() && #[trigger] all[j] == (vocab_r[id], id) by {
            if id < n - 1 {
                let j = choose|j: int| 0 <= j < head.len() && #[trigger] head[j] == (vocab_r[id], id);
                assert(all[j] == (vocab_r[id], id));
            } else {
                assert(all[all.len() - 1] == (vocab_r[id], id));
            }
        }
    }
}

/// The vocabulary that is loaded from the ordered vocabulary of a sound
/// model is the ordered vocabulary.
pub proof fn lemma_vocab_from_ordered(
    vocab: Map<Seq<char>, u32>,
    vocab_r: Map<u32, Seq<char>>,
    len: int,
    n: int,
)
    requires
        vocab_is_sound(vocab, vocab_r, len),
    ensures
        vocab_from(ordered_vocab(vocab_r, n), ordered_vocab(vocab_r, n).len() as int)
            == ordered_vocab(vocab_r, n),
    decreases n,
{
    let all = ordered_vocab(vocab_r, n);
    if n > 0 {
        let head = ordered_vocab(vocab_r, n - 1);
        lemma_vocab_from_ordered(vocab, vocab_r, len, n - 1);
        if n - 1 <= u32::MAX && vocab_r.contains_key((n - 1) as u32) {
            let id = (n - 1) as u32;
            let k = vocab_r[id];
            assert(all == head.push((k, id)));
            assert(all.take(head.len() as int) =~= head);
            assert(head.take(head.len() as int) =~= head);
            lemma_vocab_from_same(all, head, head.len() as int);
            lemma_ordered_vocab(vocab_r, n - 1);
            lemma_position_of(head, k);
            if position_of(head, k) is Some {
                let j = position_of(head, k)->0;
                assert(head[j].1 < n - 1 && vocab_r[head[j].1] == head[j].0);
                assert(vocab[vocab_r[head[j].1]] == head[j].1);
                assert(vocab[vocab_r[id]] == id);
            }
        }
    } else {
        assert(vocab_from(all, 0) =~= all);
    }
}

/// The vocabulary of the first `n` items is that of any list that begins
/// with them.
pub proof fn lemma_vocab_from_same(a: Seq<(Seq<char>, u32)>, b: Seq<(Seq<char>, u32)>, n: int)
    requires
        0 <= n <= a.len(),
        n <= b.len(),
        a.take(n) == b.take(n),
    ensures
        vocab_from(a, n) == vocab_from(b, n),
    decreases n,
{
    if n > 0 {
        assert(a.take(n - 1) =~= a.take(n).take(n - 1));
        assert(b.take(n - 1) =~= b.take(n).take(n - 1));
        lemma_vocab_from_same(a, b, n - 1);
        assert(a[n - 1] == a.take(n)[n - 1]);
        assert(b[n - 1] == b.take(n)[n - 1]);
    }
}

/// The ordered vocabulary of a sound model is the vocabulary.
pub proof fn lemma_ordered_is_vocab(vocab: Map<Seq<char>, u32>, vocab_r: Map<u32, Seq<char>>, n: int)
    requires
        vocab_is_sound(vocab, vocab_r, n),
    ensures
        crate::strmap::entries_map(ordered_vocab(vocab_r, n)) == vocab,
{
    let ov = ordered_vocab(vocab_r, n);
    lemma_ordered_vocab(vocab_r, n);
    let loaded = crate::strmap::entries_map(ov);
    assert forall|k: Seq<char>| #[trigger] loaded.dom().contains(k) == vocab.dom().contains(k) by {
        lemma_position_of(ov, k);
        if position_of(ov, k) is Some {
            let j = position_of(ov, k)->0;
            assert(vocab_r.contains_key(ov[j].1) && vocab_r[ov[j].1] == k);
        }
        if vocab.contains_key(k) {
            let id = vocab[k];
            assert(vocab_r.contains_key(id));
            let j = choose|j: int| 0 <= j < ov.len() && #[trigger] ov[j] == (vocab_r[id], id);
            assert(ov[j].0 == k);
        }
    }
    assert forall|k: Seq<char>| #[trigger] loaded.dom().contains(k) implies loaded[k] == vocab[k] by {
        lemma_position_of(ov, k);
        let j = position_of(ov, k)->0;
        assert(vocab_r.contains_key(ov[j].1) && vocab_r[ov[j].1] == k);
    }
    assert(loaded =~= vocab);
}

/// The tokens of the ids below `n`.
pub open spec fn below(vocab_r: Map<u32, Seq<char>>, n: int) -> Map<u32, Seq<char>> {
    Map::new(|id: u32| id < n && vocab_r.contains_key(id), |id: u32| vocab_r[id])
}

/// The reverse of the ordered vocabulary holds the tokens of the ids below
/// `n`.
pub proof fn lemma_reversed_ordered(vocab_r: Map<u32, Seq<char>>, n: int)
    ensures
        reversed(ordered_vocab(vocab_r, n)) == below(vocab_r, n),
    decreases n,
{
    if n > 0 {
        lemma_reversed_ordered(vocab_r, n - 1);
        let head = ordered_vocab(vocab_r, n - 1);
        let all = ordered_vocab(vocab_r, n);
        if n - 1 <= u32::MAX && vocab_r.contains_key((n - 1) as u32) {
            assert(all.drop_last() =~= head);
            assert(reversed(all) =~= below(vocab_r, n));
        } else {
            assert(below(vocab_r, n - 1) =~= below(vocab_r, n));
        }
    } else {
        assert(reversed(ordered_vocab(vocab_r, n)) =~= below(vocab_r, n));
    }
}

/// The stored merges of a table load as the table, where every stored text
/// is read back as its pair.
pub proof fn lemma_merges_load(entries: Seq<(Pair, MergeEntries)>, n: int)
    requires
        0 <= n <= entries.len(),
    ensures
        merges_from(stored_merges(entries), pairs_in(entries), n) == Ok::<Map<Pair, MergeEntries>, int>(
            table_of(entries, n),
        ),
    decreases n,
{
    if n > 0 {
        lemma_merges_load(entries, n - 1);
    }
}

/// The stored splits of a table load as the table, where the vocabulary
/// leads from the string of each token back to the token.
pub proof fn lemma_splits_load(
    entries: Seq<(u32, SplitEntries)>,
    vocab: Map<Seq<char>, u32>,
    vocab_r: Map<u32, Seq<char>>,
    len: int,
    n: int,
)
    requires
        0 <= n <= entries.len(),
        vocab_is_sound(vocab, vocab_r, len),
        splits_have_strings(entries, vocab_r),
    ensures
        splits_from(stored_splits(entries, vocab_r), vocab, n) == Ok::<Map<u32, SplitEntries>, int>(
            table_of(entries, n),
        ),
    decreases n,
{
    if n > 0 {
        lemma_splits_load(entries, vocab, vocab_r, len, n - 1);
        assert(vocab_r.contains_key(entries[n - 1].0));
    }
}

/// Two models hold the same: vocabulary, reversed vocabulary, tables and
/// options.
pub open spec fn same_model(a: PBPE, b: PBPE) -> bool {
    &&& a.vocab@ == b.vocab@
    &&& a.vocab_r_map() == b.vocab_r_map()
    &&& a.merges@ == b.merges@
    &&& a.splits@ == b.splits@
    &&& option_text(a.unk_token) == option_text(b.unk_token)
    &&& option_text(a.continuing_subword_prefix) == option_text(b.continuing_subword_prefix)
    &&& option_text(a.end_of_word_suffix) == option_text(b.end_of_word_suffix)
    &&& a.fuse_unk == b.fuse_unk
    &&& a.byte_fallback == b.byte_fallback
    &&& a.ignore_merges == b.ignore_merges
}

impl PBPE {
    /// The model that is loaded from the record of this model: for a model
    /// whose ids are the numbers from zero up, each for one token, it holds
    /// the same as this model.
    pub fn reloaded(&self) -> (r: Result<PBPE, Error>)
        requires
            vocab_is_sound(self.vocab@, self.vocab_r_map(), self.vocab_r@.len() as int),
            splits_have_strings(self.splits.entries(), self.vocab_r_map()),
        ensures
            r matches Ok(m) && same_model(m, *self),
    {
        let record = self.to_record();
        let pairs = Self::parse_pairs(&record);
        self.merges.entries_are_the_table();
        self.splits.entries_are_the_table();
        proof {
            let entries = self.merges.entries();
            assert forall|i: int| 0 <= i < entries.len() implies pairs@[i] == Some(
                entries[i].0,
            ) by {
                let items = stored_merges(entries);
                assert(items[i].0 == pair_text(entries[i].0));
            }
            assert(pairs@ =~= pairs_in(entries));
            let n = self.vocab_r@.len() as int;
            let vr = self.vocab_r_map();
            lemma_vocab_from_ordered(self.vocab@, vr, n, n);
            lemma_ordered_is_vocab(self.vocab@, vr, n);
            lemma_reversed_ordered(vr, n);
            assert(below(vr, n) =~= vr);
            lemma_merges_load(self.merges.entries(), self.merges.entries().len() as int);
            lemma_table_of(self.merges.entries(), self.merges@);
            lemma_splits_load(
                self.splits.entries(),
                self.vocab@,
                vr,
                n,
                self.splits.entries().len() as int,
            );
            lemma_table_of(self.splits.entries(), self.splits@);
        }
        Self::from_parsed_record(record, &pairs)
    }
}

} // verus!
