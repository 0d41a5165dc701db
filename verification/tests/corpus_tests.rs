use pbpe_tokenizer::model::{Vocab, PBPE};
use pbpe_tokenizer::pruning::Ratio;
use pbpe_tokenizer::strmap::StrMap;
use pbpe_tokenizer::tables::{MergeMap, SplitMap};
use pbpe_tokenizer::trainer::PbpeTrainer;
use pbpe_tokenizer::training::{Happening, Training};
use pbpe_tokenizer::word::Word;

fn counts(entries: &[(&str, u64)]) -> StrMap<u64> {
    let mut counts = StrMap::new();
    for (word, count) in entries {
        counts.insert(word.to_string(), *count);
    }
    counts
}

fn vocab_entries(model: &PBPE) -> Vec<(String, u32)> {
    let vocab: Vocab = model.get_vocab();
    (0..vocab.len())
        .map(|i| {
            let (token, id) = vocab.entry(i);
            (token.clone(), *id)
        })
        .collect()
}

fn entries_of(list: &[(&str, u32)]) -> Vec<(String, u32)> {
    list.iter().map(|(t, id)| (t.to_string(), *id)).collect()
}

#[test]
fn a_pair_count_is_not_advertised_at_the_length_limit() {
    let mut word = Word::new();
    word.add(0, 1);
    word.add(1, 1);
    word.add(2, 1);
    word.add(0, 1);
    // The new symbol has length 2; with a neighbour of length 1 it reaches
    // the limit of 3, so no pair with a neighbour is counted.
    let changes = word.merge(1, 2, 3, 3);
    assert_eq!(word.get_chars(), vec![0, 3, 0]);
    assert_eq!(
        changes,
        vec![((1, 2), -1), ((0, 1), -1), ((2, 0), -1)]
    );

    let mut word = Word::new();
    word.add(0, 1);
    word.add(1, 1);
    word.add(2, 1);
    word.add(0, 1);
    let changes = word.merge(1, 2, 3, 4);
    assert_eq!(
        changes,
        vec![
            ((1, 2), -1),
            ((0, 1), -1),
            ((0, 3), 1),
            ((2, 0), -1),
            ((3, 0), 1)
        ]
    );
    assert_eq!(word.get_offsets_iter(), vec![(0, 1), (1, 3), (3, 4)]);
}

#[test]
fn a_merge_fuses_every_occurrence_from_the_left() {
    let mut word = Word::new();
    for _ in 0..5 {
        word.add(7, 1);
    }
    let changes = word.merge(7, 7, 8, usize::MAX);
    assert_eq!(word.get_chars(), vec![8, 8, 7]);
    assert_eq!(
        changes,
        vec![
            ((7, 7), -1),
            ((7, 7), -1),
            ((8, 7), 1),
            ((8, 7), -1),
            ((8, 8), 1),
            ((7, 7), -1),
            ((8, 7), 1),
        ]
    );
}

#[test]
fn the_pieces_of_a_retracted_symbol_at_the_front_bring_the_pairs_among_themselves() {
    let mut word = Word::new();
    word.add(4, 2);
    word.add(3, 1);
    let changes = word.remove(4, &vec![2, 2], usize::MAX);
    assert_eq!(word.get_chars(), vec![2, 2, 3]);
    assert_eq!(changes, vec![((4, 3), -1), ((2, 2), 1), ((2, 3), 1)]);
    // Each piece has the length of the symbol that it replaces.
    assert_eq!(word.get_offsets_iter(), vec![(0, 2), (2, 4), (4, 5)]);
}

#[test]
fn a_word_without_the_retracted_token_stays_as_it_is_whatever_the_pieces() {
    let mut word = Word::new();
    word.add(1, 1);
    word.add(2, 3);
    assert_eq!(word.remove(4, &vec![], 10), vec![]);
    assert_eq!(word.remove(4, &vec![1, 4], 10), vec![]);
    assert_eq!(word.get_chars(), vec![1, 2]);
    assert_eq!(word.get_offsets_iter(), vec![(0, 1), (1, 4)]);
}

#[test]
fn a_retraction_undoes_a_merge_on_the_ids() {
    let mut word = Word::new();
    for id in [1, 2, 3, 1, 2] {
        word.add(id, 1);
    }
    word.merge(1, 2, 9, usize::MAX);
    assert_eq!(word.get_chars(), vec![9, 3, 9]);
    word.remove(9, &vec![1, 2], usize::MAX);
    assert_eq!(word.get_chars(), vec![1, 2, 3, 1, 2]);
}

#[test]
fn a_retraction_replaces_every_occurrence() {
    let mut word = Word::new();
    word.add(1, 1);
    word.add(4, 1);
    word.add(4, 1);
    let changes = word.remove(4, &vec![2, 3], 3);
    assert_eq!(word.get_chars(), vec![1, 2, 3, 2, 3]);
    assert_eq!(
        changes,
        vec![
            ((1, 4), -1),
            ((4, 4), -1),
            ((1, 2), 1),
            ((2, 3), 1),
            ((3, 4), 1),
            ((3, 4), -1),
            ((3, 2), 1),
            ((2, 3), 1),
        ]
    );
}

#[test]
fn the_alphabet_is_cut_at_its_lightest_characters() {
    let word_counts = counts(&[("aab", 1), ("c", 5)]);
    let trainer = PbpeTrainer::builder()
        .show_progress(false)
        .limit_alphabet(2)
        .build();
    let mut model = PBPE::default();
    trainer.do_train(&word_counts, &mut model).unwrap();
    assert_eq!(
        vocab_entries(&model),
        entries_of(&[("a", 0), ("c", 1), ("aa", 2)])
    );
    let mut merges = MergeMap::new();
    merges.insert((0, 0), vec![(0, 2)]);
    assert_eq!(model.merges, merges);
    assert_eq!(model.splits, SplitMap::new());
}

#[test]
fn of_characters_of_one_weight_the_one_of_lower_code_point_is_cut_first() {
    let word_counts = counts(&[("ab", 1)]);
    let trainer = PbpeTrainer::builder()
        .show_progress(false)
        .limit_alphabet(1)
        .build();
    let mut model = PBPE::default();
    trainer.do_train(&word_counts, &mut model).unwrap();
    assert_eq!(vocab_entries(&model), entries_of(&[("b", 0)]));
}

#[test]
fn the_initial_alphabet_is_kept_and_named_in_the_order_of_code_points() {
    let word_counts = counts(&[("b", 9), ("a", 1)]);
    let trainer = PbpeTrainer::builder()
        .show_progress(false)
        .initial_alphabet(vec!['z', 'A'])
        .limit_alphabet(3)
        .build();
    let mut model = PBPE::default();
    trainer.do_train(&word_counts, &mut model).unwrap();
    assert_eq!(
        vocab_entries(&model),
        entries_of(&[("A", 0), ("b", 1), ("z", 2)])
    );
}

#[test]
fn prefix_and_suffix_are_part_of_the_tokens() {
    let word_counts = counts(&[("ab", 2)]);
    let trainer = PbpeTrainer::builder()
        .show_progress(false)
        .continuing_subword_prefix("##".to_string())
        .end_of_word_suffix("</w>".to_string())
        .build();
    let mut model = PBPE::default();
    trainer.do_train(&word_counts, &mut model).unwrap();
    assert_eq!(
        vocab_entries(&model),
        entries_of(&[("a", 0), ("b", 1), ("##b</w>", 2), ("ab</w>", 3)])
    );
    let mut merges = MergeMap::new();
    merges.insert((0, 2), vec![(0, 3)]);
    assert_eq!(model.merges, merges);
    assert_eq!(model.continuing_subword_prefix, Some("##".to_string()));
    assert_eq!(model.end_of_word_suffix, Some("</w>".to_string()));
    assert_eq!(model.tokenize("ab").unwrap()[0].id, 3);
}

#[test]
fn training_stops_at_the_vocabulary_size() {
    let word_counts = counts(&[("cd", 2), ("ab", 3)]);
    let trainer = PbpeTrainer::builder()
        .show_progress(false)
        .vocab_size(5)
        .build();
    let mut model = PBPE::default();
    trainer.do_train(&word_counts, &mut model).unwrap();
    assert_eq!(
        vocab_entries(&model),
        entries_of(&[("a", 0), ("b", 1), ("c", 2), ("d", 3), ("ab", 4)])
    );
}

#[test]
fn of_pairs_with_one_count_the_lesser_pair_is_merged_first() {
    let word_counts = counts(&[("cd", 2), ("ab", 2)]);
    let trainer = PbpeTrainer::builder()
        .show_progress(false)
        .vocab_size(5)
        .build();
    let mut model = PBPE::default();
    trainer.do_train(&word_counts, &mut model).unwrap();
    assert_eq!(
        vocab_entries(&model),
        entries_of(&[("a", 0), ("b", 1), ("c", 2), ("d", 3), ("ab", 4)])
    );
}

#[test]
fn a_pair_below_the_least_frequency_is_not_merged() {
    let word_counts = counts(&[("ab", 1)]);
    let trainer = PbpeTrainer::new(2, 100);
    let mut model = PBPE::default();
    trainer.do_train(&word_counts, &mut model).unwrap();
    assert_eq!(vocab_entries(&model), entries_of(&[("a", 0), ("b", 1)]));
    assert_eq!(model.merges, MergeMap::new());
}

#[test]
fn no_token_is_retracted_below_the_threshold() {
    let word_counts = counts(&[
        ("roses", 1),
        ("are", 15),
        ("red", 1),
        ("voilets", 1),
        ("blue", 1),
        ("BERT", 1),
        ("is", 2),
        ("big", 1),
        ("and", 1),
        ("so", 1),
        ("GPT-2", 1),
    ]);
    // 'are' takes 15 of the 16 occurrences of 're': a share below one.
    let trainer = PbpeTrainer::builder()
        .show_progress(false)
        .tau(Some(Ratio { num: 1, den: 1 }))
        .min_frequency(2)
        .build();
    let mut model = PBPE::default();
    trainer.do_train(&word_counts, &mut model).unwrap();
    let mut merges = MergeMap::new();
    merges.insert((17, 11), vec![(0, 22)]);
    merges.insert((8, 22), vec![(1, 23)]);
    merges.insert((13, 18), vec![(2, 24)]);
    assert_eq!(model.merges, merges);
    assert_eq!(model.splits, SplitMap::new());

    // With a threshold of 15/16 it is retracted.
    let trainer = PbpeTrainer::builder()
        .show_progress(false)
        .tau(Some(Ratio { num: 15, den: 16 }))
        .min_frequency(2)
        .build();
    let mut model = PBPE::default();
    trainer.do_train(&word_counts, &mut model).unwrap();
    let mut splits = SplitMap::new();
    splits.insert(22, vec![(2, vec![17, 11])]);
    assert_eq!(model.splits, splits);
}

fn trained_state(words: &[(&str, u64)], tau: Ratio) -> Training {
    let trainer = PbpeTrainer::builder()
        .show_progress(false)
        .tau(Some(tau))
        .min_frequency(2)
        .build();
    let state = trainer.start(&counts(words)).unwrap();
    PbpeTrainer::run(state, &trainer.options()).unwrap()
}

#[test]
fn no_retracted_token_is_left_in_the_words_of_the_corpus() {
    let words = [
        ("roses", 1),
        ("are", 15),
        ("red", 1),
        ("bred", 4),
        ("is", 2),
    ];
    let state = trained_state(&words, Ratio { num: 3, den: 10 });
    assert!(state.active.contains(&0));
    for word in &state.words {
        for id in word.get_chars() {
            assert!(id < state.atomic || state.active[(id - state.atomic) as usize] == 1);
        }
    }
    let spelled: Vec<Vec<u32>> = state.words.iter().map(|w| w.get_chars()).collect();
    let name = |id: u32| state.naming.texts[id as usize].clone();
    let texts: Vec<Vec<String>> = spelled
        .iter()
        .map(|w| w.iter().map(|id| name(*id)).collect())
        .collect();
    // 're', 'ed' and 'red' are retracted in turn; 'bred' stays.
    assert_eq!(state.active, vec![0, 1, 0, 0, 1, 1]);
    assert_eq!(texts[0], vec!["r", "o", "s", "e", "s"]);
    assert_eq!(texts[1], vec!["are"]);
    assert_eq!(texts[2], vec!["r", "e", "d"]);
    assert_eq!(texts[3], vec!["bred"]);
    assert_eq!(texts[4], vec!["is"]);
}

#[test]
fn every_event_draws_on_tokens_that_are_in_use_at_its_rank() {
    let words = [
        ("roses", 1),
        ("are", 15),
        ("red", 1),
        ("bred", 4),
        ("is", 2),
    ];
    let state = trained_state(&words, Ratio { num: 3, den: 10 });
    let atomic = state.atomic;
    let mut in_use = vec![false; state.active.len()];
    let live = |in_use: &Vec<bool>, id: u32| id < atomic || in_use[(id - atomic) as usize];
    let mut merges = 0;
    let mut splits = 0;
    for event in &state.log {
        match event {
            Happening::Merge { pair, new_id } => {
                assert!(live(&in_use, pair.0));
                assert!(live(&in_use, pair.1));
                if *new_id >= atomic {
                    in_use[(*new_id - atomic) as usize] = true;
                }
                merges += 1;
            }
            Happening::Split { id, pieces } => {
                assert!(*id >= atomic);
                assert!(live(&in_use, *id));
                in_use[(*id - atomic) as usize] = false;
                for piece in pieces {
                    assert!(live(&in_use, *piece as u32));
                }
                splits += 1;
            }
        }
    }
    assert_eq!(merges, 6);
    assert_eq!(splits, 3);
    for (k, flag) in state.active.iter().enumerate() {
        assert_eq!(*flag == 1, in_use[k]);
    }
}

#[test]
fn feeding_counts_the_words_in_the_order_in_which_they_come() {
    let mut trainer = PbpeTrainer::default();
    let sequences = vec![
        vec!["b".to_string(), "a".to_string(), "b".to_string()],
        vec![],
        vec!["a".to_string(), "c".to_string(), "b".to_string()],
    ];
    trainer.feed(&sequences).unwrap();
    let fed: Vec<(String, u64)> = (0..trainer.words.len())
        .map(|i| {
            let (word, count) = trainer.words.entry(i);
            (word.clone(), *count)
        })
        .collect();
    assert_eq!(
        fed,
        vec![
            ("b".to_string(), 3),
            ("a".to_string(), 2),
            ("c".to_string(), 1)
        ]
    );
    assert!(trainer.should_show_progress());
    let mut model = PBPE::default();
    trainer.train(&mut model).unwrap();
    assert_eq!(
        vocab_entries(&model),
        vec![
            ("a".to_string(), 0),
            ("b".to_string(), 1),
            ("c".to_string(), 2)
        ]
    );
}
