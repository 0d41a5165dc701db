use pbpe_tokenizer::model::{PbpeBuilder, Token, Vocab, PBPE};
use pbpe_tokenizer::tables::{MergeMap, SplitMap};

fn vocab_of(entries: &[(&str, u32)]) -> Vocab {
    let mut vocab = Vocab::new();
    for (token, id) in entries {
        vocab.insert(token.to_string(), *id);
    }
    vocab
}

fn merges_of(entries: Vec<((u32, u32), Vec<(u32, u32)>)>) -> MergeMap {
    let mut merges = MergeMap::new();
    for (pair, list) in entries {
        merges.insert(pair, list);
    }
    merges
}

#[test]
fn test_unk_not_fused() {
    let vocab = vocab_of(&[("<unk>", 0), ("a", 1), ("b", 2)]);
    let mut pbpe = PbpeBuilder::default()
        .vocab_and_merges_and_splits(vocab, MergeMap::new(), SplitMap::new())
        .unk_token("<unk>".to_string())
        .build()
        .unwrap();
    let tokens = pbpe.tokenize("c").unwrap();
    assert_eq!(tokens, vec![Token::new(0u32, "<unk>".into(), (0, 1)),]);

    let tokens = pbpe.tokenize("cc").unwrap();
    assert_eq!(
        tokens,
        vec![
            Token::new(0u32, "<unk>".into(), (0, 1)),
            Token::new(0u32, "<unk>".into(), (1, 2)),
        ]
    );

    let tokens = pbpe.tokenize("accb").unwrap();
    assert_eq!(
        tokens,
        vec![
            Token::new(1u32, "a".into(), (0, 1)),
            Token::new(0u32, "<unk>".into(), (1, 2)),
            Token::new(0u32, "<unk>".into(), (2, 3)),
            Token::new(2u32, "b".into(), (3, 4)),
        ]
    );
}

#[test]
fn test_unk_get_fused() {
    let vocab = vocab_of(&[("<unk>", 0), ("a", 1), ("b", 2)]);
    let mut pbpe = PbpeBuilder::default()
        .vocab_and_merges_and_splits(vocab, MergeMap::new(), SplitMap::new())
        .unk_token("<unk>".to_string())
        .fuse_unk(true)
        .build()
        .unwrap();
    let tokens = pbpe.tokenize("c").unwrap();
    assert_eq!(tokens, vec![Token::new(0u32, "<unk>".into(), (0, 1)),]);

    let tokens = pbpe.tokenize("cc").unwrap();
    assert_eq!(tokens, vec![Token::new(0u32, "<unk>".into(), (0, 2)),]);

    let tokens = pbpe.tokenize("accb").unwrap();
    assert_eq!(
        tokens,
        vec![
            Token::new(1u32, "a".into(), (0, 1)),
            Token::new(0u32, "<unk>".into(), (1, 3)),
            Token::new(2u32, "b".into(), (3, 4)),
        ]
    );
}

#[test]
fn test_tokenize() {
    let vocab = vocab_of(&[
        ("u", 0),
        ("n", 1),
        ("r", 2),
        ("e", 3),
        ("l", 4),
        ("a", 5),
        ("t", 6),
        ("d", 7),
        ("re", 8),
        ("at", 9),
        ("ed", 10),
        ("un", 11),
        ("ated", 12),
        ("rel", 13),
        ("related", 14),
        ("unrelated", 15),
    ]);
    let merges = merges_of(vec![
        // ("r", "e") -> "re", id 8
        ((2, 3), vec![(0, 8)]),
        // ("a", "t") -> "at", id 9
        ((5, 6), vec![(1, 9)]),
        // ("e", "d") -> "ed", id 10
        ((3, 7), vec![(2, 10)]),
        // ("u", "n") -> "un", id 11
        ((0, 1), vec![(3, 11)]),
        // ("at", "ed") -> "ated", id 12
        ((9, 10), vec![(4, 12)]),
        // ("re", "l") -> "rel", id 13
        ((8, 4), vec![(5, 13)]),
        // ("rel", "ated") -> "related", id 14
        ((13, 12), vec![(6, 14)]),
        // ("un", "related") -> "unrelated", id 15
        ((11, 14), vec![(7, 15)]),
    ]);

    // No splits in this test
    let splits = SplitMap::new();

    let mut pbpe = PBPE::new(vocab, merges, splits);

    let tokens = pbpe.tokenize("unrelated").unwrap();
    assert_eq!(tokens, vec![Token::new(15u32, "unrelated".into(), (0, 9))]);
}

#[test]
fn test_pbpe_with_continuing_subword_prefix() {
    let vocab = vocab_of(&[("a", 0), ("##b", 1), ("##c", 2), ("ab", 3), ("abc", 4)]);

    let merges = merges_of(vec![
        // ("a", "##b") -> "ab", id 3
        ((0, 1), vec![(0, 3)]),
        // ("ab", "##c") -> "abc", id 4
        ((3, 2), vec![(1, 4)]),
    ]);

    let mut pbpe = PBPE::builder()
        .vocab_and_merges_and_splits(vocab, merges, SplitMap::new())
        .unk_token("[UNK]".to_string())
        .continuing_subword_prefix("##".to_string())
        .build()
        .unwrap();

    let res = pbpe.tokenize("ab");
    assert_eq!(
        res.unwrap(),
        vec![Token {
            id: 3,
            value: "ab".to_string(),
            offsets: (0, 2)
        }]
    );
    let res = pbpe.tokenize("abc");
    assert_eq!(
        res.unwrap(),
        vec![Token {
            id: 4,
            value: "abc".to_string(),
            offsets: (0, 3)
        }]
    );
}

#[test]
fn test_pbpe_byte_fallback() {
    // 0x61 == 'a' in bytes
    let vocab = vocab_of(&[("<unk>", 0), ("<0x61>", 1)]);
    let mut pbpe = PbpeBuilder::default()
        .vocab_and_merges_and_splits(vocab, MergeMap::new(), SplitMap::new())
        .unk_token("<unk>".to_string())
        .byte_fallback(true)
        .build()
        .unwrap();
    let tokens = pbpe.tokenize("c").unwrap();
    assert_eq!(tokens, vec![Token::new(0u32, "<unk>".into(), (0, 1)),]);

    let tokens = pbpe.tokenize("a").unwrap();
    assert_eq!(tokens, vec![Token::new(1u32, "<0x61>".into(), (0, 1)),]);
}

#[test]
fn test_pbpe_byte_fallback_newline() {
    // 0x0A == '\n' in bytes
    let vocab = vocab_of(&[("<unk>", 0), ("<0x0A>", 1)]);
    let mut pbpe = PbpeBuilder::default()
        .vocab_and_merges_and_splits(vocab, MergeMap::new(), SplitMap::new())
        .unk_token("<unk>".to_string())
        .byte_fallback(true)
        .build()
        .unwrap();
    let tokens = pbpe.tokenize("\n").unwrap();
    assert_eq!(tokens, vec![Token::new(1u32, "<0x0A>".into(), (0, 1)),]);
}

#[test]
fn test_ignore_merges() {
    let vocab = vocab_of(&[
        (".:.:", 0),
        ("Ġbelirtilen", 1),
        (".", 2),
        (":", 3),
        ("bel", 4),
        ("irtilen", 5),
        ("Ġ", 6),
        (".:", 7),
        ("belirtilen", 8),
        (".:.", 9),
        ("be", 10),
        ("l", 11),
        ("ir", 12),
        ("ti", 13),
        ("en", 14),
        ("irtil", 15),
        ("irti", 16),
        ("i", 17),
        ("r", 18),
        ("t", 19),
        ("b", 20),
        ("e", 21),
        ("n", 22),
    ]);
    let merges = merges_of(vec![
        // (".", ":") -> ".:" (id 7)
        ((2, 3), vec![(0, 7)]),
        // ("b", "e") -> "be", id 10
        ((20, 21), vec![(0, 10)]),
        // ("be", "l") -> "bel", id 4
        ((10, 11), vec![(1, 4)]),
        // ("i", "r") -> "ir", id 12
        ((17, 18), vec![(2, 12)]),
        // ("t", "i") -> "ti", id 13
        ((19, 17), vec![(3, 13)]),
        // ("ir", "ti") -> "irti", id 16
        ((12, 13), vec![(4, 16)]),
        // ("irti", "l") -> "irtil", id 15
        ((16, 11), vec![(5, 15)]),
        // ("e", "n") -> "en", id 14
        ((21, 22), vec![(6, 14)]),
    ]);
    let mut pbpe = PbpeBuilder::default()
        .vocab_and_merges_and_splits(vocab, merges, SplitMap::new())
        .ignore_merges(true)
        .build()
        .unwrap();
    let tokens = pbpe.tokenize(".:.:").unwrap();
    assert_eq!(tokens, vec![Token::new(0u32, ".:.:".into(), (0, 4))]);

    let tokens = pbpe.tokenize("Ġbelirtilen").unwrap();
    assert_eq!(
        tokens,
        vec![Token::new(1u32, "Ġbelirtilen".into(), (0, 12))]
    );

    pbpe.ignore_merges = false;

    let tokens = pbpe.tokenize(".:.:").unwrap();
    assert_eq!(
        tokens,
        vec![
            Token::new(7u32, ".:".into(), (0, 2)),
            Token::new(7u32, ".:".into(), (2, 4))
        ]
    );

    let tokens = pbpe.tokenize("Ġbelirtilen").unwrap();
    assert_eq!(
        tokens,
        vec![
            Token {
                id: 6,
                value: "Ġ".into(),
                offsets: (0, 2)
            },
            Token {
                id: 4,
                value: "bel".into(),
                offsets: (2, 5)
            },
            Token {
                id: 15,
                value: "irtil".into(),
                offsets: (5, 10)
            },
            Token {
                id: 14,
                value: "en".into(),
                offsets: (10, 12)
            }
        ]
    )
}
