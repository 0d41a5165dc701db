use pbpe_tokenizer::alphabet::char_string;
use pbpe_tokenizer::cache::Cache;
use pbpe_tokenizer::keymap::KeyMap;
use pbpe_tokenizer::model::Error;
use pbpe_tokenizer::naming::Naming;
use pbpe_tokenizer::pruning::{reaches, Ratio};
use pbpe_tokenizer::strmap::{hash_str, str_eq, StrMap};
use pbpe_tokenizer::text::{byte_token, char_len, chars_of_str, copy_string};
use pbpe_tokenizer::word::{sum_below, Word};

#[test]
fn a_key_map_keeps_its_entries_in_the_order_in_which_the_keys_came() {
    let mut map: KeyMap<&str> = KeyMap::new();
    assert_eq!(map.len(), 0);
    assert_eq!(map.get(7), None);
    map.insert(7, "seven");
    map.insert(3, "three");
    map.insert(u64::MAX, "most");
    map.insert(3, "drei");
    assert_eq!(map.len(), 3);
    assert_eq!(map.entry(0), (7, &"seven"));
    assert_eq!(map.entry(1), (3, &"drei"));
    assert_eq!(map.entry(2), (u64::MAX, &"most"));
    assert_eq!(map.get(3), Some(&"drei"));
    assert_eq!(map.find(u64::MAX), Some(2));
    assert_eq!(map.find(4), None);
    assert!(map.contains_key(7));
    assert!(!map.contains_key(8));
}

#[test]
fn a_value_of_a_key_map_can_be_set_and_swapped_in_place() {
    let mut map: KeyMap<u32> = KeyMap::new();
    map.insert(10, 1);
    map.insert(20, 2);
    map.insert(30, 3);
    map.set_at(1, 22);
    assert_eq!(map.get(20), Some(&22));
    assert_eq!(map.swap_at(0, 11), 1);
    assert_eq!(map.entry(0), (10, &11));
    assert_eq!(map.entry(1), (20, &22));
    assert_eq!(map.entry(2), (30, &3));
    assert_eq!(map.find(30), Some(2));
    map.clear();
    assert_eq!(map.len(), 0);
    assert_eq!(map.get(10), None);
}

#[test]
fn a_string_map_keeps_its_entries_in_the_order_in_which_the_keys_came() {
    let mut map: StrMap<u32> = StrMap::new();
    assert_eq!(map.len(), 0);
    map.insert("b".to_string(), 1);
    map.insert("a".to_string(), 2);
    map.insert("".to_string(), 3);
    map.insert("b".to_string(), 4);
    assert_eq!(map.len(), 3);
    assert_eq!(map.entry(0), (&"b".to_string(), &4));
    assert_eq!(map.entry(1), (&"a".to_string(), &2));
    assert_eq!(map.entry(2), (&"".to_string(), &3));
    assert_eq!(map.get("a"), Some(&2));
    assert_eq!(map.get("c"), None);
    assert!(map.contains_key(""));
    assert!(!map.contains_key("ab"));
}

#[test]
fn string_maps_are_equal_whatever_the_order_of_their_keys() {
    let mut one: StrMap<u32> = StrMap::new();
    one.insert("x".to_string(), 1);
    one.insert("y".to_string(), 2);
    let mut other: StrMap<u32> = StrMap::new();
    other.insert("y".to_string(), 2);
    assert!(other.is_within(&one));
    assert!(!one.is_within(&other));
    assert!(one != other);
    other.insert("x".to_string(), 1);
    assert!(one == other);
    let copy = one.duplicate();
    assert_eq!(copy.entry(0), (&"x".to_string(), &1));
    assert_eq!(copy.entry(1), (&"y".to_string(), &2));
    other.insert("x".to_string(), 3);
    assert!(one != other);
}

#[test]
fn strings_are_hashed_and_compared_by_their_bytes() {
    assert_eq!(hash_str(""), 0xcbf2_9ce4_8422_2325);
    assert_eq!(hash_str("a"), 0xaf63_dc4c_8601_ec8c);
    assert_ne!(hash_str("ab"), hash_str("ba"));
    assert!(str_eq("réd", "réd"));
    assert!(!str_eq("red", "rid"));
    assert!(!str_eq("red", "re"));
    assert!(str_eq("", ""));
}

#[test]
fn names_get_the_next_free_id_and_keep_it() {
    let mut naming = Naming::new();
    assert_eq!(naming.len(), 0);
    assert_eq!(naming.get("a"), None);
    assert_eq!(naming.intern("a".to_string()), Ok(0));
    assert_eq!(naming.intern("b".to_string()), Ok(1));
    assert_eq!(naming.intern("a".to_string()), Ok(0));
    assert_eq!(naming.intern("ab".to_string()), Ok(2));
    assert_eq!(naming.len(), 3);
    assert_eq!(naming.get("b"), Some(1));
    assert_eq!(naming.get("c"), None);
    assert_ne!(naming.intern("c".to_string()), Err(Error::Overflow));
}

#[test]
fn characters_have_their_utf8_lengths() {
    assert_eq!(char_len('a'), 1);
    assert_eq!(char_len('\u{7f}'), 1);
    assert_eq!(char_len('é'), 2);
    assert_eq!(char_len('\u{7ff}'), 2);
    assert_eq!(char_len('日'), 3);
    assert_eq!(char_len('\u{ffff}'), 3);
    assert_eq!(char_len('😀'), 4);
    assert_eq!(chars_of_str("aé日"), vec!['a', 'é', '日']);
    assert_eq!(chars_of_str(""), Vec::<char>::new());
    assert_eq!(char_string('日'), "日");
    assert_eq!(copy_string(&"aé".to_string()), "aé");
}

#[test]
fn a_byte_token_has_two_upper_case_hexadecimal_digits() {
    assert_eq!(byte_token(0x00), "<0x00>");
    assert_eq!(byte_token(0x0a), "<0x0A>");
    assert_eq!(byte_token(0x61), "<0x61>");
    assert_eq!(byte_token(0xbf), "<0xBF>");
    assert_eq!(byte_token(0xff), "<0xFF>");
}

#[test]
fn a_share_reaches_a_threshold_exactly_at_the_threshold() {
    let third = Ratio { num: 3, den: 10 };
    assert!(reaches(3, 10, third));
    assert!(reaches(4, 10, third));
    assert!(!reaches(2, 10, third));
    assert!(reaches(15, 16, third));
    assert!(!reaches(15, 16, Ratio { num: 1, den: 1 }));
    assert!(reaches(16, 16, Ratio { num: 1, den: 1 }));
    // A share with the count zero is above every threshold.
    assert!(reaches(1, 0, Ratio { num: i64::MAX, den: 1 }));
    // A share with a count below zero is below zero.
    assert!(!reaches(1, -2, third));
    assert!(reaches(1, -2, Ratio { num: -1, den: 2 }));
    assert!(!reaches(1, -2, Ratio { num: -1, den: 4 }));
    // A threshold without a denominator is reached by nothing.
    assert!(!reaches(5, 1, Ratio { num: 0, den: 0 }));
    // Numbers at the ends of their ranges.
    assert!(reaches(i64::MAX, i64::MAX, Ratio { num: 1, den: 1 }));
    assert!(!reaches(i64::MAX - 1, i64::MAX, Ratio { num: 1, den: 1 }));
    assert!(reaches(i64::MAX, 1, Ratio { num: i64::MAX, den: u64::MAX }));
    assert!(reaches(i64::MIN, i64::MIN, Ratio { num: 1, den: 1 }));
}

#[test]
fn a_sum_is_compared_without_overflow() {
    assert!(sum_below(1, 2, 4));
    assert!(!sum_below(2, 2, 4));
    assert!(!sum_below(usize::MAX, usize::MAX, usize::MAX));
    assert!(sum_below(usize::MAX - 1, 0, usize::MAX));
    assert!(!sum_below(0, 0, 0));
}

#[test]
fn a_cache_takes_words_until_it_is_full() {
    let mut cache = Cache::new(2);
    let mut word = Word::new();
    word.add(1, 1);
    assert!(cache.get("a").is_none());
    cache.set("a".to_string(), word);
    let mut word = Word::new();
    word.add(2, 1);
    word.add(3, 2);
    cache.set("b".to_string(), word);
    cache.set("c".to_string(), Word::new());
    assert_eq!(cache.get("a").unwrap().get_chars(), vec![1]);
    assert_eq!(cache.get("b").unwrap().get_chars(), vec![2, 3]);
    assert!(cache.get("c").is_none());
    let fresh = cache.fresh();
    assert!(fresh.get("a").is_none());
    cache.clear();
    assert!(cache.get("a").is_none());
    cache.set("c".to_string(), Word::new());
    assert!(cache.get("c").is_some());
}
