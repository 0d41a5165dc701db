use pbpe_tokenizer::model::{Error, Vocab, PBPE};
use pbpe_tokenizer::pruning::Ratio;
use pbpe_tokenizer::strmap::StrMap;
use pbpe_tokenizer::tables::{MergeMap, SplitMap};
use pbpe_tokenizer::trainer::{AddedToken, PbpeTrainer};

fn corpus(entries: &[(&str, u64)]) -> StrMap<u64> {
    let mut counts = StrMap::new();
    for (word, count) in entries {
        counts.insert(word.to_string(), *count);
    }
    counts
}

fn vocab_of(entries: &[(&str, u32)]) -> Vocab {
    let mut vocab = Vocab::new();
    for (token, id) in entries {
        vocab.insert(token.to_string(), *id);
    }
    vocab
}

fn vocab_strings(model: &PBPE) -> Vec<String> {
    let vocab = model.get_vocab();
    let mut keys = Vec::new();
    for i in 0..vocab.len() {
        keys.push(vocab.entry(i).0.clone());
    }
    keys
}

#[test]
fn test_train() {
    let word_counts = corpus(&[
        ("roses", 1),
        ("are", 15),
        ("red", 1),
        ("voilets", 1),
        ("blue", 1),
        ("BERT", 1),
        ("is", 2),
        ("big", 1),
        ("and", 1),
        ("so", 1),
        ("GPT-2", 1),
    ]);
    let trainer = PbpeTrainer::builder()
        .show_progress(false)
        .tau(Some(Ratio { num: 3, den: 10 }))
        .min_frequency(2)
        .build();
    let mut model = PBPE::default();
    trainer.do_train(&word_counts, &mut model).unwrap();

    // Vocab should contain all of the characters from the `word_counts` mapping
    // as well as three merges: 're', 'are', and 'is'.
    let expected_vocab = vocab_of(&[
        ("-", 0),
        ("2", 1),
        ("B", 2),
        ("E", 3),
        ("G", 4),
        ("P", 5),
        ("R", 6),
        ("T", 7),
        ("a", 8),
        ("b", 9),
        ("d", 10),
        ("e", 11),
        ("g", 12),
        ("i", 13),
        ("l", 14),
        ("n", 15),
        ("o", 16),
        ("r", 17),
        ("s", 18),
        ("t", 19),
        ("u", 20),
        ("v", 21),
        ("re", 22),
        ("are", 23),
        ("is", 24),
    ]);
    assert_eq!(model.vocab, expected_vocab);

    // The keys in `merges` are pairs of symbols, the values are tuples of (rank, id),
    // where 'rank' determines the order in which this merge will be applied during
    // tokenization, and 'id' is the vocab id of the symbol resulting from merging
    // the pair of symbols in the corresponding key.
    let mut expected_merges = MergeMap::new();
    expected_merges.insert((17, 11), vec![(0, 22)]); // 'r' + 'e'  -> 're'
    expected_merges.insert((8, 22), vec![(1, 23)]); // 'a' + 're' -> 'are'
    expected_merges.insert((13, 18), vec![(3, 24)]); // 'i' + 's'  -> 'is'
    assert_eq!(model.merges, expected_merges);
    let mut expected_splits = SplitMap::new();
    expected_splits.insert(22, vec![(2, vec![17, 11])]);
    assert_eq!(model.splits, expected_splits);
}

#[test]
fn bpe_test_max_token_length_16() {
    // Only the length of the learned tokens is tested here.
    let max_token_length = 16;
    let long_word_counts = corpus(&[
        ("singlelongtokenwithoutcasechange", 2),
        ("singleLongTokenWithCamelCaseChange", 2),
        ("Longsingletokenwithpunctu@t!onwithin", 2),
        ("Anotherlongsingletokenwithnumberw1th1n", 2),
        ("짧은한글문자열짧은한", 2),             // korean 10 char
        ("긴한글문자열긴한글문자열긴한글문", 2), // korean 16 char
        ("短字符串短字符串短字", 2),             //simplified chinese 10 char
        ("长字符串长字符串长字符串长字符串", 2), // simp. chinese 16 char
        ("短い文字列短い文字列", 2),             // japanese 10 char
        ("長い文字列長い文字列長い文字列長", 2), // japanese 16 char
        ("so", 2),
        ("GPT-2", 2),
    ]);
    let trainer = PbpeTrainer::builder()
        .max_token_length(Some(max_token_length))
        .show_progress(false)
        .min_frequency(0)
        .build();
    let mut model = PBPE::default();
    trainer.do_train(&long_word_counts, &mut model).unwrap();
    for token in vocab_strings(&model) {
        assert!(
            token.chars().count() <= max_token_length,
            "token too long : {} , chars().count() = {}",
            token,
            token.chars().count()
        )
    }
}

#[test]
fn bpe_test_max_token_length_direct_assert() {
    let long_word_counts = corpus(&[
        ("sin", 2),
        ("Sin", 2),
        ("Lon", 2),
        ("Ano", 2),
        ("짧은한", 2),
        ("긴한글", 2),
        ("短字符", 2),
        ("长字符", 2),
        ("短い文", 2),
        ("長い文", 2),
        ("so", 2),
        ("GP", 2),
    ]);
    let trainer = PbpeTrainer::builder()
        .max_token_length(Some(2))
        .show_progress(false)
        .min_frequency(0)
        .build();
    let mut model = PBPE::default();
    trainer.do_train(&long_word_counts, &mut model).unwrap();
    let trained_vocab = vocab_strings(&model);

    // Check that all basic characters are present
    let basic_chars = [
        "A", "G", "L", "P", "S", "i", "n", "o", "s", "い", "字", "文", "短", "符", "長", "长", "글",
        "긴", "은", "짧", "한",
    ];

    for char in basic_chars.iter() {
        assert!(
            trained_vocab.iter().any(|t| t == *char),
            "Basic character {} is missing",
            char
        );
    }

    // Check that all tokens have length <= 2
    for token in trained_vocab.iter() {
        assert!(
            token.chars().count() <= 2,
            "Token {} is too long: {} chars",
            token,
            token.chars().count()
        );
    }

    // Check that some expected merges are present (without enforcing specific order)
    let expected_merges = ["so", "GP", "Lo", "in", "字符", "い文", "긴한"];

    let mut found_merges = 0;
    for merge in expected_merges.iter() {
        if trained_vocab.iter().any(|t| t == *merge) {
            found_merges += 1;
        }
    }

    // We should have at least some of the expected merges
    assert!(
        found_merges >= 3,
        "Expected at least 3 merges to be present, found {}",
        found_merges
    );
}

#[test]
fn test_split() {
    let parents = vec![(2u32, 2u32), (0u32, 1u32), (1u32, 4u32)];
    let id_active = vec![0, 1, 0];
    let atomic_size = 4;
    let split_token = PbpeTrainer::split(6, &parents, &id_active, atomic_size);
    assert_eq!(split_token, vec![1, 2, 2]);
}

#[test]
fn train_reports_a_count_that_does_not_fit() {
    let word_counts = corpus(&[("ab", u64::MAX)]);
    let trainer = PbpeTrainer::builder().show_progress(false).build();
    let mut model = PBPE::default();
    assert_eq!(
        trainer.do_train(&word_counts, &mut model),
        Err(Error::Overflow)
    );
}

#[test]
fn train_returns_the_special_tokens_and_names_them_first() {
    let word_counts = corpus(&[("ab", 3)]);
    let trainer = PbpeTrainer::builder()
        .show_progress(false)
        .special_tokens(vec![AddedToken::from("[UNK]".to_string(), true)])
        .build();
    let mut model = PBPE::default();
    let tokens = trainer.do_train(&word_counts, &mut model).unwrap();
    assert_eq!(tokens, vec![AddedToken::from("[UNK]".to_string(), true)]);
    assert_eq!(model.token_to_id("[UNK]"), Some(0));
    assert_eq!(model.token_to_id("a"), Some(1));
    assert_eq!(model.token_to_id("b"), Some(2));
    assert_eq!(model.token_to_id("ab"), Some(3));
}

#[test]
fn a_model_hands_out_a_trainer_with_nothing_set() {
    let trainer = PBPE::default().get_trainer();
    assert_eq!(trainer.min_frequency, 0);
    assert_eq!(trainer.vocab_size, 30000);
    assert!(trainer.show_progress);
    assert!(trainer.should_show_progress());
    assert!(trainer.special_tokens.is_empty());
    assert_eq!(trainer.limit_alphabet, None);
    assert!(trainer.initial_alphabet.is_empty());
    assert_eq!(trainer.continuing_subword_prefix, None);
    assert_eq!(trainer.end_of_word_suffix, None);
    assert_eq!(trainer.max_token_length, None);
    assert_eq!(trainer.tau, Some(Ratio { num: 1, den: 1 }));
    assert_eq!(trainer.words.len(), 0);
}

#[test]
fn train_returns_the_special_tokens_with_their_flags() {
    let word_counts = corpus(&[("ab", 3)]);
    let marked = AddedToken {
        content: "[SEP]".to_string(),
        single_word: true,
        lstrip: true,
        rstrip: false,
        normalized: true,
        special: false,
    };
    let same = AddedToken {
        content: "[SEP]".to_string(),
        single_word: true,
        lstrip: true,
        rstrip: false,
        normalized: true,
        special: false,
    };
    let trainer = PbpeTrainer::builder()
        .show_progress(false)
        .special_tokens(vec![AddedToken::from("[UNK]".to_string(), true), marked])
        .build();
    let mut model = PBPE::default();
    let tokens = trainer.do_train(&word_counts, &mut model).unwrap();
    assert_eq!(
        tokens,
        vec![AddedToken::from("[UNK]".to_string(), true), same]
    );
}

#[test]
fn train_fails_where_a_merged_pair_spells_a_special_token() {
    let word_counts = corpus(&[("ab", 3)]);
    let trainer = PbpeTrainer::builder()
        .show_progress(false)
        .special_tokens(vec![AddedToken::from("ab".to_string(), true)])
        .build();
    let mut model = PBPE::default();
    assert_eq!(
        trainer.do_train(&word_counts, &mut model),
        Err(Error::Overflow)
    );
    assert_eq!(model.get_vocab_size(), 0);
    assert!(model == PBPE::default());
}

