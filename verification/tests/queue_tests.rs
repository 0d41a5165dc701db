use pbpe_tokenizer::pairs::PairQueue;
use pbpe_tokenizer::tables::{key_of, pair_of};

#[test]
fn a_new_queue_is_empty() {
    let mut queue = PairQueue::new();
    assert!(queue.is_empty());
    assert_eq!(queue.pop(), None);
    assert!(queue.is_empty());
}

#[test]
fn the_pair_with_the_greatest_count_leaves_first() {
    let mut queue = PairQueue::new();
    queue.enqueue(key_of((1, 2)), 3, vec![0]);
    queue.enqueue(key_of((0, 7)), 9, vec![1, 2]);
    queue.enqueue(key_of((4, 4)), 5, vec![3]);
    assert!(!queue.is_empty());
    assert_eq!(queue.pop(), Some((key_of((0, 7)), 9, vec![1, 2])));
    assert_eq!(queue.pop(), Some((key_of((4, 4)), 5, vec![3])));
    assert_eq!(queue.pop(), Some((key_of((1, 2)), 3, vec![0])));
    assert_eq!(queue.pop(), None);
}

#[test]
fn of_pairs_with_one_count_the_lesser_pair_leaves_first() {
    let mut queue = PairQueue::new();
    queue.enqueue(key_of((3, 1)), 4, vec![]);
    queue.enqueue(key_of((1, 9)), 4, vec![]);
    queue.enqueue(key_of((1, 2)), 4, vec![]);
    queue.enqueue(key_of((0, 5)), 1, vec![]);
    let order: Vec<(u32, u32)> = (0..4).map(|_| pair_of(queue.pop().unwrap().0)).collect();
    assert_eq!(order, vec![(1, 2), (1, 9), (3, 1), (0, 5)]);
}

#[test]
fn a_waiting_pair_can_be_given_a_new_count() {
    let mut queue = PairQueue::new();
    queue.enqueue(key_of((1, 2)), 3, vec![0]);
    queue.enqueue(key_of((0, 7)), 9, vec![1]);
    queue.recount(key_of((1, 2)), 10);
    assert_eq!(queue.pop(), Some((key_of((1, 2)), 10, vec![0])));
    queue.recount(key_of((0, 7)), -2);
    assert_eq!(queue.pop(), Some((key_of((0, 7)), -2, vec![1])));
}

#[test]
fn a_new_count_for_a_pair_that_does_not_wait_changes_nothing() {
    let mut queue = PairQueue::new();
    queue.recount(key_of((1, 2)), 10);
    assert!(queue.is_empty());
    queue.enqueue(key_of((0, 7)), 9, vec![1]);
    queue.recount(key_of((1, 2)), 10);
    assert_eq!(queue.pop(), Some((key_of((0, 7)), 9, vec![1])));
    assert_eq!(queue.pop(), None);
}

#[test]
fn a_pair_that_waits_and_is_put_in_again_keeps_its_words() {
    let mut queue = PairQueue::new();
    queue.enqueue(key_of((1, 2)), 3, vec![0, 4]);
    queue.enqueue(key_of((1, 2)), 8, vec![9]);
    assert_eq!(queue.pop(), Some((key_of((1, 2)), 8, vec![0, 4])));
    assert_eq!(queue.pop(), None);
}

#[test]
fn a_key_stands_for_its_pair() {
    assert_eq!(key_of((0, 0)), 0);
    assert_eq!(key_of((1, 2)), (1u64 << 32) + 2);
    assert_eq!(key_of((u32::MAX, u32::MAX)), u64::MAX);
    assert_eq!(pair_of(key_of((7, 11))), (7, 11));
    assert_eq!(pair_of(u64::MAX), (u32::MAX, u32::MAX));
}
