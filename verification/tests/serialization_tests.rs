use pbpe_tokenizer::model::{Error, PbpeBuilder, Vocab, PBPE};
use pbpe_tokenizer::pairtext::pair_to_json;
use pbpe_tokenizer::record::{ordered_vocab_items, ModelRecord};
use pbpe_tokenizer::tables::{MergeMap, SplitMap};
use serde::de::{MapAccess, Visitor};
use serde::ser::{SerializeMap, SerializeStruct};
use serde::{Deserialize, Deserializer, Serialize, Serializer};
use std::collections::HashMap;
use std::marker::PhantomData;

/// A JSON object whose fields keep their order.
struct Ordered<T>(Vec<(String, T)>);

impl<T: Serialize> Serialize for Ordered<T> {
    fn serialize<S: Serializer>(&self, serializer: S) -> Result<S::Ok, S::Error> {
        let mut map = serializer.serialize_map(Some(self.0.len()))?;
        for (key, value) in &self.0 {
            map.serialize_entry(key, value)?;
        }
        map.end()
    }
}

struct OrderedVisitor<T>(PhantomData<T>);

impl<'de, T: Deserialize<'de>> Visitor<'de> for OrderedVisitor<T> {
    type Value = Ordered<T>;

    fn expecting(&self, fmt: &mut std::fmt::Formatter) -> std::fmt::Result {
        fmt.write_str("a JSON object")
    }

    fn visit_map<V: MapAccess<'de>>(self, mut map: V) -> Result<Self::Value, V::Error> {
        let mut items = Vec::new();
        while let Some(key) = map.next_key::<String>()? {
            items.push((key, map.next_value::<T>()?));
        }
        Ok(Ordered(items))
    }
}

impl<'de, T: Deserialize<'de>> Deserialize<'de> for Ordered<T> {
    fn deserialize<D: Deserializer<'de>>(deserializer: D) -> Result<Self, D::Error> {
        deserializer.deserialize_map(OrderedVisitor(PhantomData))
    }
}

/// A record as it is stored.
struct Stored(ModelRecord);

impl Serialize for Stored {
    fn serialize<S: Serializer>(&self, serializer: S) -> Result<S::Ok, S::Error> {
        let r = &self.0;
        let mut model = serializer.serialize_struct("PBPE", 10)?;
        model.serialize_field("type", &r.model_type)?;
        model.serialize_field("unk_token", &r.unk_token)?;
        model.serialize_field("continuing_subword_prefix", &r.continuing_subword_prefix)?;
        model.serialize_field("end_of_word_suffix", &r.end_of_word_suffix)?;
        model.serialize_field("fuse_unk", &r.fuse_unk)?;
        model.serialize_field("byte_fallback", &r.byte_fallback)?;
        model.serialize_field("ignore_merges", &r.ignore_merges)?;
        model.serialize_field("vocab", &Ordered(r.vocab.clone().unwrap_or_default()))?;
        model.serialize_field("merges", &Ordered(r.merges.clone().unwrap_or_default()))?;
        model.serialize_field("splits", &Ordered(r.splits.clone().unwrap_or_default()))?;
        model.end()
    }
}

struct StoredVisitor;

impl<'de> Visitor<'de> for StoredVisitor {
    type Value = Stored;

    fn expecting(&self, fmt: &mut std::fmt::Formatter) -> std::fmt::Result {
        fmt.write_str("struct PBPE")
    }

    fn visit_map<V: MapAccess<'de>>(self, mut map: V) -> Result<Self::Value, V::Error> {
        let mut r = ModelRecord {
            model_type: None,
            unk_token: None,
            continuing_subword_prefix: None,
            end_of_word_suffix: None,
            fuse_unk: None,
            byte_fallback: None,
            ignore_merges: None,
            vocab: None,
            merges: None,
            splits: None,
        };
        while let Some(key) = map.next_key::<String>()? {
            match key.as_ref() {
                "type" => r.model_type = map.next_value()?,
                "unk_token" => r.unk_token = map.next_value()?,
                "continuing_subword_prefix" => r.continuing_subword_prefix = map.next_value()?,
                "end_of_word_suffix" => r.end_of_word_suffix = map.next_value()?,
                "fuse_unk" => r.fuse_unk = map.next_value()?,
                "byte_fallback" => r.byte_fallback = map.next_value()?,
                "ignore_merges" => r.ignore_merges = map.next_value()?,
                "vocab" => r.vocab = Some(map.next_value::<Ordered<u32>>()?.0),
                "merges" => r.merges = Some(map.next_value::<Ordered<Vec<(u32, u32)>>>()?.0),
                "splits" => {
                    r.splits = Some(map.next_value::<Ordered<Vec<(u32, Vec<u32>)>>>()?.0)
                }
                _ => {
                    map.next_value::<serde::de::IgnoredAny>()?;
                }
            }
        }
        Ok(Stored(r))
    }
}

impl<'de> Deserialize<'de> for Stored {
    fn deserialize<D: Deserializer<'de>>(deserializer: D) -> Result<Self, D::Error> {
        deserializer.deserialize_map(StoredVisitor)
    }
}

fn to_json(model: &PBPE) -> String {
    serde_json::to_string(&Stored(model.to_record())).unwrap()
}

fn from_json(data: &str) -> Result<PBPE, Error> {
    let stored: Stored = serde_json::from_str(data).unwrap();
    PBPE::from_record(stored.0)
}

fn vocab_of(entries: &[(&str, u32)]) -> Vocab {
    let mut vocab = Vocab::new();
    for (token, id) in entries {
        vocab.insert(token.to_string(), *id);
    }
    vocab
}

#[test]
fn test_ordered_vocab_iter() {
    let vocab_r: HashMap<u32, String> = [
        (0, "a".into()),
        (1, "b".into()),
        (2, "c".into()),
        (3, "ab".into()),
    ]
    .iter()
    .cloned()
    .collect();
    let order_vocab_iter = Ordered(ordered_vocab_items(&vocab_r));
    let serialized = serde_json::to_string(&order_vocab_iter).unwrap();
    assert_eq!(serialized, "{\"a\":0,\"b\":1,\"c\":2,\"ab\":3}");
}

#[test]
fn test_serialization() {
    let vocab = vocab_of(&[("<unk>", 0), ("a", 1), ("b", 2), ("ab", 3)]);
    let mut merges = MergeMap::new();
    let mut splits = SplitMap::new();
    merges.insert((1, 2), vec![(0, 3)]);
    splits.insert(3, vec![(1u32, vec![1, 2])]);

    let pbpe = PbpeBuilder::default()
        .vocab_and_merges_and_splits(vocab, merges, splits)
        .unk_token("<unk>".to_string())
        .build()
        .unwrap();

    let data = to_json(&pbpe);
    assert_eq!(
        data,
        r#"{"type":"PBPE","unk_token":"<unk>","continuing_subword_prefix":null,"end_of_word_suffix":null,"fuse_unk":false,"byte_fallback":false,"ignore_merges":false,"vocab":{"<unk>":0,"a":1,"b":2,"ab":3},"merges":{"[1,2]":[[0,3]]},"splits":{"ab":[[1,[1,2]]]}}"#
    );
    let reconstructed = from_json(&data).unwrap();
    assert_eq!(pbpe, reconstructed);

    // With a space in the token
    let vocab = vocab_of(&[("<unk>", 0), ("a", 1), ("b c d", 2), ("ab c d", 3)]);
    let mut merges = MergeMap::new();
    let mut splits = SplitMap::new();
    merges.insert((1, 2), vec![(0, 3)]);
    splits.insert(3, vec![(1u32, vec![1, 2])]);
    let pbpe = PbpeBuilder::default()
        .vocab_and_merges_and_splits(vocab, merges, splits)
        .unk_token("<unk>".to_string())
        .ignore_merges(true)
        .build()
        .unwrap();
    let data = to_json(&pbpe);
    assert_eq!(
        data,
        r#"{"type":"PBPE","unk_token":"<unk>","continuing_subword_prefix":null,"end_of_word_suffix":null,"fuse_unk":false,"byte_fallback":false,"ignore_merges":true,"vocab":{"<unk>":0,"a":1,"b c d":2,"ab c d":3},"merges":{"[1,2]":[[0,3]]},"splits":{"ab c d":[[1,[1,2]]]}}"#
    );
    let reconstructed = from_json(&data).unwrap();
    assert_eq!(pbpe, reconstructed);
}

#[test]
fn loading_reports_a_wrong_type() {
    let data = r#"{"type":"BPE","vocab":{},"merges":{},"splits":{}}"#;
    assert_eq!(
        from_json(data),
        Err(Error::UnexpectedType("BPE".to_string(), "PBPE".to_string()))
    );
}

#[test]
fn loading_reports_a_missing_field() {
    assert_eq!(
        from_json(r#"{"type":"PBPE","merges":{},"splits":{}}"#),
        Err(Error::MissingField("vocab".to_string()))
    );
    assert_eq!(
        from_json(r#"{"type":"PBPE","vocab":{},"splits":{}}"#),
        Err(Error::MissingField("merges".to_string()))
    );
    assert_eq!(
        from_json(r#"{"type":"PBPE","vocab":{},"merges":{}}"#),
        Err(Error::MissingField("splits".to_string()))
    );
}

#[test]
fn loading_reports_a_split_of_an_unknown_token() {
    let data = r#"{"vocab":{"a":0},"merges":{},"splits":{"b":[[0,[0,0]]]}}"#;
    assert_eq!(
        from_json(data),
        Err(Error::TokenNotInVocab("b".to_string()))
    );
}

#[test]
fn loading_reports_a_merge_key_that_is_no_pair() {
    let data = r#"{"vocab":{"a":0},"merges":{"a b":[[0,1]]},"splits":{}}"#;
    assert_eq!(
        from_json(data),
        Err(Error::UnexpectedType("a b".to_string(), "pair".to_string()))
    );
}

#[test]
fn loading_reads_the_pair_of_a_merge_key() {
    // The key is turned into a pair, not handed on as it is.
    let data = r#"{"vocab":{"a":0,"b":1,"ab":2},"merges":{"[0, 1]":[[0,2]]},"splits":{}}"#;
    let mut model = from_json(data).unwrap();
    let tokens = model.tokenize("ab").unwrap();
    assert_eq!(tokens.len(), 1);
    assert_eq!(tokens[0].id, 2);
    assert_eq!(model.to_record().merges.unwrap()[0].0, "[0,1]");
}

#[test]
fn the_text_of_a_pair_is_the_json_array_of_its_two_numbers() {
    assert_eq!(pair_to_json((0, 0)), "[0,0]");
    assert_eq!(pair_to_json((7, 11)), "[7,11]");
    assert_eq!(pair_to_json((10, 909)), "[10,909]");
    assert_eq!(pair_to_json((u32::MAX, 1000)), "[4294967295,1000]");
    for pair in [(0u32, 9u32), (12, 340), (99, 100), (u32::MAX, u32::MAX)] {
        assert_eq!(pair_to_json(pair), serde_json::to_string(&pair).unwrap());
        let back: (u32, u32) = serde_json::from_str(&pair_to_json(pair)).unwrap();
        assert_eq!(back, pair);
    }
}

