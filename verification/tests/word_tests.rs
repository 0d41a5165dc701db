use pbpe_tokenizer::tables::{MergeMap, SplitMap};
use pbpe_tokenizer::word::Word;

fn hello() -> Word {
    let mut word = Word::new();
    word.add(0, 1); // 'h'
    word.add(1, 1); // 'e'
    word.add(2, 1); // 'l'
    word.add(2, 1); // 'l'
    word.add(3, 1); // 'o'
    word
}

#[test]
fn test_merge_split_all() {
    let mut word = hello();

    let mut merges = MergeMap::new();
    merges.insert((2, 2), vec![(0, 4)]); // 'll' has rank 0 and id 4
    merges.insert((1, 4), vec![(1, 5)]); // 'ell' has rank 1 and id 5

    let mut splits = SplitMap::new();
    splits.insert(5, vec![(2, vec![1, 4])]); // rank 2: 'ell' splits into 'e' and 'll'

    word.merge_split_all(&merges, &splits);

    assert_eq!(
        word.get_chars(),
        &[
            0u32, // 'h'
            1u32, // 'e'
            4u32, // 'll'
            3u32, // 'o'
        ]
    );

    let mut word = hello();
    merges.insert((1, 4), vec![(1, 6)]); // 'ell' has rank 1 and id 6
    word.merge_split_all(&merges, &splits);

    assert_eq!(
        word.get_chars(),
        &[
            0u32, // 'h'
            6u32, // 'ell'
            3u32, // 'o'
        ]
    );
}

#[test]
fn test_merge() {
    let mut word = hello();

    let changes = word.merge(2, 2, 4, usize::MAX);

    assert_eq!(
        word.get_chars(),
        &[
            0u32, // 'h'
            1u32, // 'e'
            4u32, // 'll'
            3u32, // 'o'
        ]
    );

    assert_eq!(
        changes,
        &[
            ((2u32, 2u32), -1i32), // the merged pair itself
            ((1u32, 2u32), -1i32), // count for ('e', 'l') should be decreased by 1.
            ((1u32, 4u32), 1i32),  // count for ('e', 'll') should be increased by 1.
            ((2u32, 3u32), -1i32), // count for ('l', 'o') should be decreased by 1.
            ((4u32, 3u32), 1i32),  // count for ('ll', 'o') should be increased by 1.
        ]
    );
}

#[test]
fn test_remove() {
    let mut word = hello();

    word.merge(2, 2, 4, usize::MAX);
    assert_eq!(
        word.get_chars(),
        &[
            0u32, // 'h'
            1u32, // 'e'
            4u32, // 'll'
            3u32, // 'o'
        ]
    );
    let changes = word.remove(4, &vec![2, 2], usize::MAX);
    assert_eq!(
        word.get_chars(),
        &[
            0u32, // 'h'
            1u32, // 'e'
            2u32, // 'l'
            2u32, // 'l'
            3u32, // 'o'
        ]
    );

    assert_eq!(
        changes,
        &[
            ((1u32, 4u32), -1i32), // count for ('e', 'll') should be decreased by 1.
            ((4u32, 3u32), -1i32), // count for ('ll', 'o') should be decreased by 1.
            ((1u32, 2u32), 1i32),  // count for ('e', 'l') should be increased by 1.
            ((2u32, 2u32), 1i32),  // count for ('l', 'l') should be increased by 1.
            ((2u32, 3u32), 1i32),  // count for ('l', 'o') should be increased by 1.
        ]
    );
}

#[test]
fn test_merge_multiple_pairs() {
    // 'mississippi' with the ids {'m': 0, 'i': 1, 's': 2, 'p': 3}.
    let mut word = Word::new();
    word.add(0, 1); // 'm'
    word.add(1, 1); // 'i'
    word.add(2, 1); // 's'
    word.add(2, 1); // 's'
    word.add(1, 1); // 'i'
    word.add(2, 1); // 's'
    word.add(2, 1); // 's'
    word.add(1, 1); // 'i'
    word.add(3, 1); // 'p'
    word.add(3, 1); // 'p'
    word.add(1, 1); // 'i'

    let _ = word.merge(2, 2, 4, usize::MAX);
    let changes = word.merge(3, 3, 5, usize::MAX);

    assert_eq!(
        word.get_chars(),
        &[
            0u32, // 'm'
            1u32, // 'i'
            4u32, // 'ss'
            1u32, // 'i'
            4u32, // 'ss'
            1u32, // 'i'
            5u32, // 'pp'
            1u32, // 'i'
        ]
    );

    assert_eq!(
        changes,
        &[
            ((3u32, 3u32), -1i32), // count for ('p', 'p') decreased.
            ((1u32, 3u32), -1i32), // count for ('i', 'p') decreased.
            ((1u32, 5u32), 1i32),  // count for ('i', 'pp') increased.
            ((3u32, 1u32), -1i32), // count for ('p', 'i') decreased.
            ((5u32, 1u32), 1i32),  // count for ('pp', 'i') increased.
        ]
    );
}
