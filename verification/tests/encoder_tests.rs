use pbpe_tokenizer::model::{Error, PbpeBuilder, Token, Vocab, PBPE};
use pbpe_tokenizer::tables::{MergeMap, SplitMap};
use pbpe_tokenizer::word::Word;

fn vocabulary(entries: &[(&str, u32)]) -> Vocab {
    let mut vocab = Vocab::new();
    for (token, id) in entries {
        vocab.insert(token.to_string(), *id);
    }
    vocab
}

fn merge_table(entries: Vec<((u32, u32), Vec<(u32, u32)>)>) -> MergeMap {
    let mut merges = MergeMap::new();
    for (pair, list) in entries {
        merges.insert(pair, list);
    }
    merges
}

/// The model that training makes of the corpus with the words `are` and
/// `red`: `re` is merged, taken into `are`, and retracted.
fn pruned_model() -> PBPE {
    let vocab = vocabulary(&[
        ("-", 0),
        ("2", 1),
        ("B", 2),
        ("E", 3),
        ("G", 4),
        ("P", 5),
        ("R", 6),
        ("T", 7),
        ("a", 8),
        ("b", 9),
        ("d", 10),
        ("e", 11),
        ("g", 12),
        ("i", 13),
        ("l", 14),
        ("n", 15),
        ("o", 16),
        ("r", 17),
        ("s", 18),
        ("t", 19),
        ("u", 20),
        ("v", 21),
        ("re", 22),
        ("are", 23),
        ("is", 24),
    ]);
    let merges = merge_table(vec![
        ((17, 11), vec![(0, 22)]),
        ((8, 22), vec![(1, 23)]),
        ((13, 18), vec![(3, 24)]),
    ]);
    let mut splits = SplitMap::new();
    splits.insert(22, vec![(2, vec![17, 11])]);
    PBPE::new(vocab, merges, splits)
}

fn related_model() -> PBPE {
    let vocab = vocabulary(&[
        ("u", 0),
        ("n", 1),
        ("r", 2),
        ("e", 3),
        ("l", 4),
        ("a", 5),
        ("t", 6),
        ("d", 7),
        ("re", 8),
        ("at", 9),
        ("ed", 10),
        ("un", 11),
        ("ated", 12),
        ("rel", 13),
        ("related", 14),
        ("unrelated", 15),
    ]);
    let merges = merge_table(vec![
        ((2, 3), vec![(0, 8)]),
        ((5, 6), vec![(1, 9)]),
        ((3, 7), vec![(2, 10)]),
        ((0, 1), vec![(3, 11)]),
        ((9, 10), vec![(4, 12)]),
        ((8, 4), vec![(5, 13)]),
        ((13, 12), vec![(6, 14)]),
        ((11, 14), vec![(7, 15)]),
    ]);
    PBPE::new(vocab, merges, SplitMap::new())
}

/// The text that tokens spell: the string of the first, then the strings of
/// the others without the continuing prefix, and all that without the suffix.
fn decode(tokens: &[Token], prefix: Option<&str>, suffix: Option<&str>) -> String {
    let mut text = String::new();
    for (i, token) in tokens.iter().enumerate() {
        let value = token.value.as_str();
        match prefix {
            Some(p) if i > 0 && value.starts_with(p) => text.push_str(&value[p.len()..]),
            _ => text.push_str(value),
        }
    }
    match suffix {
        Some(s) if text.ends_with(s) => text[..text.len() - s.len()].to_string(),
        _ => text,
    }
}

fn assert_offsets_tile(tokens: &[Token], byte_len: usize) {
    let mut at = 0;
    for token in tokens {
        assert_eq!(token.offsets.0, at);
        assert!(token.offsets.1 >= token.offsets.0);
        at = token.offsets.1;
    }
    assert_eq!(at, byte_len);
}

#[test]
fn the_empty_text_has_no_tokens() {
    let mut model = related_model();
    assert_eq!(model.tokenize("").unwrap(), vec![]);
}

#[test]
fn a_missing_unknown_token_is_reported() {
    let vocab = vocabulary(&[("a", 0)]);
    let mut model = PbpeBuilder::new()
        .vocab_and_merges_and_splits(vocab, MergeMap::new(), SplitMap::new())
        .unk_token("<unk>".to_string())
        .build()
        .unwrap();
    assert_eq!(
        model.tokenize("ab"),
        Err(Error::UnkTokenOutOfVocabulary("<unk>".to_string()))
    );
    // A word that needs no unknown token is encoded.
    assert_eq!(
        model.tokenize("a").unwrap(),
        vec![Token::new(0, "a".to_string(), (0, 1))]
    );
}

#[test]
fn a_character_without_a_token_is_left_out_where_there_is_no_unknown_token() {
    let vocab = vocabulary(&[("a", 0), ("b", 1)]);
    let mut model = PBPE::new(vocab, MergeMap::new(), SplitMap::new());
    assert_eq!(
        model.tokenize("acb").unwrap(),
        vec![
            Token::new(0, "a".to_string(), (0, 1)),
            Token::new(1, "b".to_string(), (1, 2)),
        ]
    );
}

#[test]
fn decoding_gives_the_text_back() {
    let mut model = related_model();
    for text in ["unrelated", "related", "rel", "under", "tread", "a"] {
        let tokens = model.tokenize(text).unwrap();
        assert_eq!(decode(&tokens, None, None), text);
    }
    let tokens = model.tokenize("lured").unwrap();
    let ids: Vec<u32> = tokens.iter().map(|t| t.id).collect();
    assert_eq!(ids, vec![4, 0, 8, 7]);
}

#[test]
fn decoding_gives_the_text_back_with_prefix_and_suffix() {
    let vocab = vocabulary(&[
        ("a", 0),
        ("##b", 1),
        ("##c</w>", 2),
        ("ab", 3),
        ("##b</w>", 4),
        ("##a", 5),
        ("##a</w>", 6),
        ("a</w>", 7),
    ]);
    let merges = merge_table(vec![((0, 1), vec![(0, 3)])]);
    let mut model = PbpeBuilder::new()
        .vocab_and_merges_and_splits(vocab, merges, SplitMap::new())
        .continuing_subword_prefix("##".to_string())
        .end_of_word_suffix("</w>".to_string())
        .build()
        .unwrap();
    let tokens = model.tokenize("abc").unwrap();
    assert_eq!(
        tokens,
        vec![
            Token::new(3, "ab".to_string(), (0, 2)),
            Token::new(2, "##c</w>".to_string(), (2, 3)),
        ]
    );
    assert_eq!(decode(&tokens, Some("##"), Some("</w>")), "abc");
    for text in ["ab", "aba", "a", "aab"] {
        let tokens = model.tokenize(text).unwrap();
        assert_eq!(decode(&tokens, Some("##"), Some("</w>")), text);
    }
}

#[test]
fn decoding_gives_the_text_back_where_tokens_are_split() {
    let mut model = pruned_model();
    for text in ["are", "red", "bred", "is", "re", "reared", "arena", "sire"] {
        let tokens = model.tokenize(text).unwrap();
        assert_eq!(decode(&tokens, None, None), text);
        let again = model.tokenize(&decode(&tokens, None, None)).unwrap();
        assert_eq!(tokens, again);
    }
    let ids: Vec<u32> = model
        .tokenize("reared")
        .unwrap()
        .iter()
        .map(|t| t.id)
        .collect();
    assert_eq!(ids, vec![17, 11, 23, 10]);
}

#[test]
fn encoding_what_was_decoded_gives_the_same_tokens() {
    let mut model = related_model();
    for text in ["unrelated", "related", "dealer", "turn"] {
        let tokens = model.tokenize(text).unwrap();
        let again = model.tokenize(&decode(&tokens, None, None)).unwrap();
        assert_eq!(tokens, again);
    }
}

#[test]
fn offsets_lie_end_to_end_and_cover_the_bytes() {
    let mut model = related_model();
    for text in ["unrelated", "dealer", "tread", "u"] {
        let tokens = model.tokenize(text).unwrap();
        assert_offsets_tile(&tokens, text.len());
    }
    // Characters of more than one byte, some of them unknown.
    let vocab = vocabulary(&[("<unk>", 0), ("é", 1), ("a", 2), ("éa", 3)]);
    let merges = merge_table(vec![((1, 2), vec![(0, 3)])]);
    let mut model = PbpeBuilder::new()
        .vocab_and_merges_and_splits(vocab, merges, SplitMap::new())
        .unk_token("<unk>".to_string())
        .fuse_unk(true)
        .build()
        .unwrap();
    let tokens = model.tokenize("éa日本a").unwrap();
    assert_eq!(
        tokens,
        vec![
            Token::new(3, "éa".to_string(), (0, 3)),
            Token::new(0, "<unk>".to_string(), (3, 9)),
            Token::new(2, "a".to_string(), (9, 10)),
        ]
    );
    assert_offsets_tile(&tokens, "éa日本a".len());
}

#[test]
fn a_retracted_token_is_split_again_when_a_word_is_encoded() {
    let mut model = pruned_model();
    assert_eq!(
        model.tokenize("are").unwrap(),
        vec![Token::new(23, "are".to_string(), (0, 3))]
    );
    assert_eq!(
        model.tokenize("red").unwrap(),
        vec![
            Token::new(17, "r".to_string(), (0, 1)),
            Token::new(11, "e".to_string(), (1, 2)),
            Token::new(10, "d".to_string(), (2, 3)),
        ]
    );
    assert_eq!(
        model.tokenize("bred").unwrap(),
        vec![
            Token::new(9, "b".to_string(), (0, 1)),
            Token::new(17, "r".to_string(), (1, 2)),
            Token::new(11, "e".to_string(), (2, 3)),
            Token::new(10, "d".to_string(), (3, 4)),
        ]
    );
    assert_eq!(
        model.tokenize("is").unwrap(),
        vec![Token::new(24, "is".to_string(), (0, 2))]
    );
}

#[test]
fn a_split_at_the_end_of_a_word_is_dropped() {
    // The token that is merged from the last two symbols has no right
    // neighbour, so its split does not apply.
    let mut model = pruned_model();
    assert_eq!(
        model.tokenize("re").unwrap(),
        vec![Token::new(22, "re".to_string(), (0, 2))]
    );
}

#[test]
fn events_are_replayed_in_the_order_of_their_ranks() {
    // 'b' + 'c' has the lower rank, so it is merged before 'a' + 'b' is
    // looked at, which then finds no 'b' any more.
    let mut word = Word::new();
    word.add(0, 1);
    word.add(1, 1);
    word.add(2, 1);
    let merges = merge_table(vec![((0, 1), vec![(1, 3)]), ((1, 2), vec![(0, 4)])]);
    word.merge_split_all(&merges, &SplitMap::new());
    assert_eq!(word.get_chars(), vec![0, 4]);
    assert_eq!(word.get_offsets_iter(), vec![(0, 1), (1, 3)]);
}

#[test]
fn of_events_with_one_rank_the_one_at_the_lower_position_comes_first() {
    // 'a' + 'a' in 'aaa': the pair at position 0 is merged, and the one at
    // position 1 finds its left symbol changed.
    let mut word = Word::new();
    word.add(0, 1);
    word.add(0, 1);
    word.add(0, 1);
    let merges = merge_table(vec![((0, 0), vec![(0, 1)])]);
    word.merge_split_all(&merges, &SplitMap::new());
    assert_eq!(word.get_chars(), vec![1, 0]);
}

#[test]
fn a_split_that_runs_over_the_end_of_the_word_is_dropped() {
    let mut word = Word::new();
    word.add(0, 1);
    word.add(1, 1);
    word.add(3, 1);
    let merges = merge_table(vec![((0, 1), vec![(0, 2)])]);
    let mut splits = SplitMap::new();
    splits.insert(2, vec![(1, vec![0, 1, 0, 1])]);
    word.merge_split_all(&merges, &splits);
    assert_eq!(word.get_chars(), vec![2, 3]);
}

#[test]
fn a_split_writes_its_pieces_over_the_slots_from_its_position_on() {
    let mut word = Word::new();
    word.add(0, 1);
    word.add(1, 1);
    word.add(3, 1);
    let merges = merge_table(vec![((0, 1), vec![(0, 2)])]);
    let mut splits = SplitMap::new();
    splits.insert(2, vec![(1, vec![0, 1, 0])]);
    word.merge_split_all(&merges, &splits);
    assert_eq!(word.get_chars(), vec![0, 1, 0]);
    assert_eq!(word.get_offsets_iter(), vec![(0, 1), (1, 2), (2, 3)]);
}

#[test]
fn a_pair_that_is_merged_again_after_a_split_gets_its_later_token() {
    // 'a' + 'b' is merged at rank 0, split at rank 1 and merged into another
    // token at rank 2.
    let mut word = Word::new();
    word.add(0, 1);
    word.add(1, 1);
    word.add(2, 1);
    let merges = merge_table(vec![((0, 1), vec![(0, 3), (2, 4)])]);
    let mut splits = SplitMap::new();
    splits.insert(3, vec![(1, vec![0, 1])]);
    word.merge_split_all(&merges, &splits);
    assert_eq!(word.get_chars(), vec![4, 2]);
}

#[test]
fn a_word_in_the_cache_is_not_encoded_again() {
    let mut model = related_model();
    let first = model.tokenize("unrelated").unwrap();
    let second = model.tokenize("unrelated").unwrap();
    assert_eq!(first, second);
    assert_eq!(second, vec![Token::new(15, "unrelated".to_string(), (0, 9))]);
    model.clear_cache();
    assert_eq!(model.tokenize("unrelated").unwrap(), first);
}

#[test]
fn a_full_cache_takes_no_more() {
    let vocab = vocabulary(&[("<unk>", 0), ("a", 1), ("b", 2)]);
    let mut model = PbpeBuilder::new()
        .vocab_and_merges_and_splits(vocab, MergeMap::new(), SplitMap::new())
        .unk_token("<unk>".to_string())
        .cache_capacity(1)
        .build()
        .unwrap();
    assert_eq!(model.tokenize("a").unwrap().len(), 1);
    // What the cache holds is what is returned, even when an option has
    // changed since.
    model.fuse_unk = true;
    assert_eq!(model.tokenize("cc").unwrap().len(), 1);
    model.fuse_unk = false;
    assert_eq!(model.tokenize("cc").unwrap().len(), 2);
    model.unk_token = None;
    assert_eq!(model.tokenize("a").unwrap().len(), 1);
    assert_eq!(model.tokenize("c").unwrap().len(), 0);
}

#[test]
fn a_model_without_cache_encodes_every_time() {
    let vocab = vocabulary(&[("<unk>", 0), ("a", 1)]);
    let mut model = PbpeBuilder::new()
        .vocab_and_merges_and_splits(vocab, MergeMap::new(), SplitMap::new())
        .unk_token("<unk>".to_string())
        .cache_capacity(0)
        .build()
        .unwrap();
    assert_eq!(model.tokenize("cc").unwrap().len(), 2);
    model.fuse_unk = true;
    assert_eq!(model.tokenize("cc").unwrap().len(), 1);
}

#[test]
fn a_copy_of_a_model_encodes_as_the_model_does() {
    let mut model = related_model();
    model.tokenize("unrelated").unwrap();
    let mut copy = model.clone();
    assert_eq!(copy, model);
    assert_eq!(
        copy.tokenize("unrelated").unwrap(),
        model.tokenize("unrelated").unwrap()
    );
    assert_eq!(copy.get_vocab_size(), 16);
    assert_eq!(copy.token_to_id("rel"), Some(13));
    assert_eq!(copy.token_to_id("rat"), None);
    assert_eq!(copy.id_to_token(14), Some("related".to_string()));
    assert_eq!(copy.id_to_token(16), None);
    assert_eq!(copy.get_unk_token(), &None);
    assert_eq!(copy.get_continuing_subword_prefix(), &None);
    assert_eq!(copy.get_vocab(), model.vocab);
}

#[test]
fn a_model_loaded_from_its_record_holds_the_same() {
    let model = pruned_model();
    let again = model.reloaded().unwrap();
    assert_eq!(again, model);
    let mut model = model;
    let mut again = again;
    for text in ["are", "red", "roses", "is"] {
        assert_eq!(again.tokenize(text).unwrap(), model.tokenize(text).unwrap());
    }
}

#[test]
fn errors_say_what_went_wrong() {
    assert_eq!(
        Error::UnkTokenOutOfVocabulary("<unk>".to_string()).message(),
        "the unknown token is not in the vocabulary: <unk>"
    );
    assert_eq!(
        Error::MissingField("vocab".to_string()).message(),
        "a field is missing: vocab"
    );
    assert_eq!(
        Error::UnexpectedType("BPE".to_string(), "PBPE".to_string()).message(),
        "BPE was found where this was expected: PBPE"
    );
    assert_eq!(
        Error::TokenNotInVocab("ab".to_string()).message(),
        "a split names a token that is not in the vocabulary: ab"
    );
    assert_eq!(
        Error::Overflow.message(),
        "a number came up that the machine cannot hold"
    );
}

#[test]
fn tables_are_equal_whatever_the_order_in_which_they_were_filled() {
    let a = vocabulary(&[("a", 0), ("b", 1), ("ab", 2)]);
    let b = vocabulary(&[("ab", 2), ("a", 0), ("b", 1)]);
    assert_eq!(a, b);
    assert_ne!(a, vocabulary(&[("a", 0), ("b", 1)]));
    assert_ne!(a, vocabulary(&[("a", 0), ("b", 1), ("ab", 3)]));

    let m = merge_table(vec![((0, 1), vec![(0, 2)]), ((2, 1), vec![(1, 3), (4, 5)])]);
    let n = merge_table(vec![((2, 1), vec![(1, 3), (4, 5)]), ((0, 1), vec![(0, 2)])]);
    assert_eq!(m, n);
    assert_ne!(m, merge_table(vec![((0, 1), vec![(0, 2)])]));
    assert_ne!(
        m,
        merge_table(vec![((0, 1), vec![(0, 2)]), ((2, 1), vec![(1, 3)])])
    );

    let mut s = SplitMap::new();
    s.insert(3, vec![(2, vec![0, 1])]);
    s.insert(5, vec![(3, vec![2, 1]), (6, vec![0, 0, 1])]);
    let mut t = SplitMap::new();
    t.insert(5, vec![(3, vec![2, 1]), (6, vec![0, 0, 1])]);
    t.insert(3, vec![(2, vec![0, 1])]);
    assert_eq!(s, t);
    t.insert(3, vec![(2, vec![0, 2])]);
    assert_ne!(s, t);

    assert_eq!(PBPE::new(a, m, s), {
        let mut splits = SplitMap::new();
        splits.insert(5, vec![(3, vec![2, 1]), (6, vec![0, 0, 1])]);
        splits.insert(3, vec![(2, vec![0, 1])]);
        PBPE::new(b, n, splits)
    });
}

#[test]
fn a_model_whose_ids_all_have_strings_is_consistent() {
    let mut model = pruned_model();
    assert!(model.is_consistent());
    model.tokenize("bred").unwrap();
    assert!(model.is_consistent());
    assert!(related_model().is_consistent());
    assert!(PBPE::default().is_consistent());
}

#[test]
fn a_merge_into_a_token_without_a_string_makes_a_model_inconsistent() {
    let vocab = vocabulary(&[("a", 0), ("b", 1)]);
    let merges = merge_table(vec![((0, 1), vec![(0, 2)])]);
    let model = PBPE::new(vocab, merges, SplitMap::new());
    assert!(!model.is_consistent());
}

#[test]
fn a_split_into_a_piece_without_a_string_makes_a_model_inconsistent() {
    let vocab = vocabulary(&[("a", 0), ("b", 1), ("ab", 2)]);
    let merges = merge_table(vec![((0, 1), vec![(0, 2)])]);
    let mut splits = SplitMap::new();
    splits.insert(2, vec![(1, vec![0, 7])]);
    let model = PBPE::new(vocab, merges, splits);
    assert!(!model.is_consistent());
}

#[test]
fn a_token_without_a_string_makes_a_model_inconsistent() {
    let mut model = related_model();
    model.vocab_r.remove(&3);
    assert!(!model.is_consistent());
}

#[test]
fn a_cached_word_with_an_unknown_id_makes_a_model_inconsistent() {
    let mut model = pruned_model();
    model.tokenize("are").unwrap();
    assert!(model.is_consistent());
    model.vocab_r.remove(&23);
    model.vocab = vocabulary(&[("a", 8)]);
    model.merges = MergeMap::new();
    model.splits = SplitMap::new();
    assert!(!model.is_consistent());
    model.clear_cache();
    assert!(model.is_consistent());
}

#[test]
fn the_lengths_of_a_word_fit_unless_their_sum_is_too_large() {
    let mut word = Word::new();
    assert!(word.lengths_fit());
    word.add(0, usize::MAX - 1);
    word.add(1, 1);
    assert!(word.lengths_fit());
    assert_eq!(
        word.get_offsets_iter(),
        vec![(0, usize::MAX - 1), (usize::MAX - 1, usize::MAX)]
    );
    word.add(2, 1);
    assert!(!word.lengths_fit());
}

#[test]
fn byte_tokens_stand_behind_the_unknown_token_of_the_character_before() {
    let vocab = vocabulary(&[("<unk>", 0), ("<0x61>", 1)]);
    let mut model = PbpeBuilder::new()
        .vocab_and_merges_and_splits(vocab, MergeMap::new(), SplitMap::new())
        .unk_token("<unk>".to_string())
        .byte_fallback(true)
        .build()
        .unwrap();
    let word = model.merge_word("ca").unwrap();
    assert_eq!(word.get_chars(), vec![0, 1]);
    assert_eq!(word.get_offsets_iter(), vec![(0, 1), (1, 2)]);
    assert_eq!(
        model.tokenize("ca").unwrap(),
        vec![
            Token::new(0, "<unk>".to_string(), (0, 1)),
            Token::new(1, "<0x61>".to_string(), (1, 2)),
        ]
    );
    assert_eq!(
        model.tokenize("cac").unwrap(),
        vec![
            Token::new(0, "<unk>".to_string(), (0, 1)),
            Token::new(1, "<0x61>".to_string(), (1, 2)),
            Token::new(0, "<unk>".to_string(), (2, 3)),
        ]
    );
}

#[test]
fn unknown_characters_on_both_sides_of_byte_tokens_are_not_fused() {
    let vocab = vocabulary(&[("<unk>", 0), ("<0x61>", 1)]);
    let mut model = PbpeBuilder::new()
        .vocab_and_merges_and_splits(vocab, MergeMap::new(), SplitMap::new())
        .unk_token("<unk>".to_string())
        .byte_fallback(true)
        .fuse_unk(true)
        .build()
        .unwrap();
    assert_eq!(
        model.tokenize("ccacc").unwrap(),
        vec![
            Token::new(0, "<unk>".to_string(), (0, 2)),
            Token::new(1, "<0x61>".to_string(), (2, 3)),
            Token::new(0, "<unk>".to_string(), (3, 5)),
        ]
    );
}

#[test]
fn offsets_cover_the_bytes_of_characters_of_several_bytes_without_an_unknown_token() {
    let vocab = vocabulary(&[("é", 0), ("日", 1), ("a", 2), ("é日", 3)]);
    let merges = merge_table(vec![((0, 1), vec![(0, 3)])]);
    let mut model = PBPE::new(vocab, merges, SplitMap::new());
    let tokens = model.tokenize("aé日é").unwrap();
    assert_eq!(
        tokens,
        vec![
            Token::new(2, "a".to_string(), (0, 1)),
            Token::new(3, "é日".to_string(), (1, 6)),
            Token::new(0, "é".to_string(), (6, 8)),
        ]
    );
    assert_offsets_tile(&tokens, "aé日é".len());
}

#[test]
fn the_links_of_a_replayed_word_lead_to_its_neighbours() {
    let mut word = Word::new();
    word.add(5, 1);
    word.add(5, 1);
    word.add(5, 1);
    let merges = merge_table(vec![((5, 5), vec![(0, 6)])]);
    word.merge_split_all(&merges, &SplitMap::new());
    let mut expected = Word::new();
    expected.add(6, 2);
    expected.add(5, 1);
    assert_eq!(word, expected);
}
