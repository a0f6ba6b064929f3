use skip_list::level::{level_from_bits, random_level, MAX_LEVEL};
use skip_list::text::frame_entries;
use skip_list::SkipList;
use std::collections::BTreeMap;

fn listing<K: Ord + Clone, V: Clone>(list: &SkipList<K, V>) -> Vec<(K, V)> {
    let mut out = Vec::new();
    let mut it = list.iter();
    while let Some((k, v)) = it.next() {
        out.push((k.clone(), v.clone()));
    }
    out
}

fn drained<K: Ord, V>(list: SkipList<K, V>) -> Vec<(K, V)> {
    let mut out = Vec::new();
    let mut it = list.into_iter();
    while let Some(entry) = it.next() {
        out.push(entry);
    }
    out
}

#[test]
fn traversal_is_ascending_whatever_the_insertion_order() {
    let mut list: SkipList<i32, &str> = SkipList::new();
    assert_eq!(list.insert(5, "a"), None);
    assert_eq!(list.insert(3, "b"), None);
    assert_eq!(list.insert(8, "c"), None);
    assert_eq!(list.insert(1, "d"), None);
    assert_eq!(listing(&list), vec![(1, "d"), (3, "b"), (5, "a"), (8, "c")]);
    assert_eq!(list.len(), 4);
    assert_eq!(drained(list), vec![(1, "d"), (3, "b"), (5, "a"), (8, "c")]);
}

#[test]
fn second_insert_of_a_key_replaces_the_value() {
    let mut list: SkipList<i32, &str> = SkipList::new();
    assert_eq!(list.insert(5, "x"), None);
    assert_eq!(list.insert(5, "y"), Some("x"));
    assert_eq!(list.get(&5), Some(&"y"));
    assert_eq!(list.len(), 1);
    assert_eq!(listing(&list), vec![(5, "y")]);
}

#[test]
fn remove_on_an_empty_container_finds_nothing() {
    let mut list: SkipList<i32, i32> = SkipList::new();
    assert_eq!(list.remove(&5), None);
    assert_eq!(list.len(), 0);
    assert!(list.is_empty());
    assert_eq!(list.get(&5), None);
    assert_eq!(list.pop_front(), None);
}

#[test]
fn removing_the_even_keys_of_a_thousand_leaves_the_odd_ones() {
    let mut list: SkipList<u32, u32> = SkipList::new();
    for k in 1..=1000u32 {
        assert_eq!(list.insert(k, k), None);
    }
    assert_eq!(list.len(), 1000);
    for k in 1..=1000u32 {
        if k % 2 == 0 {
            assert_eq!(list.remove(&k), Some(k));
        }
    }
    for k in 1..=1000u32 {
        if k % 2 == 0 {
            assert_eq!(list.get(&k), None);
        } else {
            assert_eq!(list.get(&k), Some(&k));
        }
    }
    assert_eq!(list.len(), 500);
    let expected: Vec<(u32, u32)> = (1..=1000u32).filter(|k| k % 2 == 1).map(|k| (k, k)).collect();
    assert_eq!(listing(&list), expected);
}

#[test]
fn the_last_insert_of_a_key_wins() {
    let pairs = [(4, 1), (2, 2), (4, 3), (9, 4), (2, 5), (4, 6), (7, 7)];
    let mut list: SkipList<i32, i32> = SkipList::new();
    let mut seen: BTreeMap<i32, i32> = BTreeMap::new();
    for (k, v) in pairs {
        assert_eq!(list.insert(k, v), seen.insert(k, v));
    }
    assert_eq!(list.get(&4), Some(&6));
    assert_eq!(list.get(&2), Some(&5));
    assert_eq!(list.get(&9), Some(&4));
    assert_eq!(list.get(&7), Some(&7));
    assert_eq!(list.get(&1), None);
    assert_eq!(list.len(), 4);
}

#[test]
fn len_counts_the_keys_held() {
    let mut list: SkipList<i32, i32> = SkipList::new();
    assert_eq!(list.len(), 0);
    list.insert(1, 10);
    assert_eq!(list.len(), 1);
    list.insert(2, 20);
    assert_eq!(list.len(), 2);
    list.insert(1, 11);
    assert_eq!(list.len(), 2);
    assert_eq!(list.remove(&3), None);
    assert_eq!(list.len(), 2);
    assert_eq!(list.remove(&1), Some(11));
    assert_eq!(list.len(), 1);
    assert_eq!(list.remove(&1), None);
    assert_eq!(list.len(), 1);
    assert_eq!(list.remove(&2), Some(20));
    assert_eq!(list.len(), 0);
    assert!(list.is_empty());
}

#[test]
fn traversal_yields_len_entries_with_strictly_increasing_keys() {
    let mut list: SkipList<i64, i64> = SkipList::new();
    let mut x: i64 = 12345;
    for _ in 0..5000 {
        x = (x * 6364136223846793005i64.wrapping_rem(1000003) + 1442695) % 100003;
        list.insert(x % 2000 - 1000, x);
    }
    let entries = listing(&list);
    assert_eq!(entries.len(), list.len());
    for pair in entries.windows(2) {
        assert!(pair[0].0 < pair[1].0);
    }
    for (k, v) in entries.iter() {
        assert_eq!(list.get(k), Some(v));
    }
}

#[test]
fn remove_hands_back_what_insert_stored() {
    let mut list: SkipList<i32, String> = SkipList::new();
    list.insert(1, "one".to_string());
    list.insert(2, "two".to_string());
    assert_eq!(list.insert(7, "seven".to_string()), None);
    assert_eq!(list.remove(&7), Some("seven".to_string()));
    assert_eq!(list.get(&7), None);
    let before = listing(&list);
    assert_eq!(list.remove(&7), None);
    assert_eq!(list.remove(&0), None);
    assert_eq!(list.len(), 2);
    assert_eq!(listing(&list), before);
}

#[test]
fn clear_empties_and_the_container_fills_again() {
    let mut list: SkipList<i32, i32> = SkipList::new();
    for k in 0..100 {
        list.insert(k, k * k);
    }
    list.clear();
    assert_eq!(list.len(), 0);
    assert!(list.is_empty());
    assert_eq!(listing(&list), vec![]);
    assert_eq!(list.get(&5), None);
    assert_eq!(list.insert(5, 50), None);
    assert_eq!(list.insert(2, 20), None);
    assert_eq!(list.insert(5, 55), Some(50));
    assert_eq!(listing(&list), vec![(2, 20), (5, 55)]);
    list.clear();
    list.clear();
    assert_eq!(list.len(), 0);
}

#[test]
fn a_clone_holds_equal_values_and_is_independent() {
    let mut list: SkipList<i32, String> = SkipList::new();
    for k in [3, 1, 2] {
        list.insert(k, format!("v{}", k));
    }
    let mut copy = list.clone();
    assert_eq!(copy.len(), list.len());
    assert_eq!(listing(&copy), listing(&list));
    match copy.get_mut(&2) {
        Some(v) => v.push_str("!"),
        None => panic!("the key is there"),
    }
    copy.insert(9, "nine".to_string());
    copy.remove(&1);
    assert_eq!(copy.get(&2), Some(&"v2!".to_string()));
    assert_eq!(list.get(&2), Some(&"v2".to_string()));
    assert_eq!(
        listing(&list),
        vec![(1, "v1".to_string()), (2, "v2".to_string()), (3, "v3".to_string())]
    );
    assert_eq!(
        listing(&copy),
        vec![(2, "v2!".to_string()), (3, "v3".to_string()), (9, "nine".to_string())]
    );
}

#[test]
fn consuming_yields_the_sorted_pairs() {
    let pairs = vec![(42u64, 'a'), (7, 'b'), (19, 'c'), (0, 'd'), (u64::MAX, 'e'), (8, 'f')];
    let mut list: SkipList<u64, char> = SkipList::new();
    for &(k, v) in pairs.iter() {
        list.insert(k, v);
    }
    let mut sorted = pairs.clone();
    sorted.sort();
    assert_eq!(drained(list), sorted);
}

#[test]
fn consuming_takes_entries_out_one_by_one() {
    let mut list: SkipList<i32, i32> = SkipList::new();
    for k in [2, 1, 3] {
        list.insert(k, -k);
    }
    let mut it = list.into_iter();
    assert_eq!(it.next(), Some((1, -1)));
    assert_eq!(it.next(), Some((2, -2)));
    assert_eq!(it.next(), Some((3, -3)));
    assert_eq!(it.next(), None);
    assert_eq!(it.next(), None);
}

#[test]
fn pop_front_takes_the_least_key() {
    let mut list: SkipList<i32, i32> = SkipList::new();
    for k in [10, -4, 7, 0] {
        list.insert(k, k + 1);
    }
    assert_eq!(list.pop_front(), Some((-4, -3)));
    assert_eq!(list.len(), 3);
    assert_eq!(list.get(&-4), None);
    assert_eq!(list.pop_front(), Some((0, 1)));
    assert_eq!(list.insert(-9, 9), None);
    assert_eq!(list.pop_front(), Some((-9, 9)));
    assert_eq!(list.pop_front(), Some((7, 8)));
    assert_eq!(list.pop_front(), Some((10, 11)));
    assert_eq!(list.pop_front(), None);
    assert!(list.is_empty());
}

#[test]
fn get_mut_changes_a_value_in_place() {
    let mut list: SkipList<i32, i32> = SkipList::new();
    list.insert(1, 10);
    list.insert(2, 20);
    match list.get_mut(&2) {
        Some(v) => *v += 5,
        None => panic!("the key is there"),
    }
    assert_eq!(list.get_mut(&3), None);
    assert_eq!(list.get(&2), Some(&25));
    assert_eq!(list.get(&1), Some(&10));
    assert_eq!(list.len(), 2);
}

#[test]
fn iter_mut_changes_every_value_and_no_key() {
    let mut list: SkipList<i32, i32> = SkipList::new();
    for k in [5, 1, 3] {
        list.insert(k, k * 10);
    }
    let mut keys = Vec::new();
    {
        let mut it = list.iter_mut();
        while let Some((k, v)) = it.next() {
            keys.push(*k);
            *v += 1;
        }
        assert!(it.next().is_none());
    }
    assert_eq!(keys, vec![1, 3, 5]);
    assert_eq!(listing(&list), vec![(1, 11), (3, 31), (5, 51)]);
}

#[test]
fn iter_on_an_empty_container_ends_at_once() {
    let list: SkipList<i32, i32> = SkipList::new();
    let mut it = list.iter();
    assert!(it.next().is_none());
    assert!(it.next().is_none());
}

#[test]
fn every_level_can_be_given() {
    let mut list: SkipList<usize, usize> = SkipList::new();
    for level in 0..MAX_LEVEL {
        assert_eq!(list.insert_with_level(100 - level, level, level), None);
    }
    for level in 0..MAX_LEVEL {
        assert_eq!(list.insert_with_level(200 + level, level, MAX_LEVEL - 1 - level), None);
    }
    assert_eq!(list.len(), 2 * MAX_LEVEL);
    for level in 0..MAX_LEVEL {
        assert_eq!(list.get(&(100 - level)), Some(&level));
        assert_eq!(list.get(&(200 + level)), Some(&level));
    }
    assert_eq!(list.insert_with_level(100, 7, 31), Some(0));
    let entries = listing(&list);
    for pair in entries.windows(2) {
        assert!(pair[0].0 < pair[1].0);
    }
    for level in 0..MAX_LEVEL {
        if level % 3 == 0 {
            assert_eq!(list.remove(&(200 + level)), Some(level));
        }
    }
    assert_eq!(list.remove(&100), Some(7));
    for level in 0..MAX_LEVEL {
        let expected = if level % 3 == 0 { None } else { Some(&level) };
        assert_eq!(list.get(&(200 + level)), expected);
    }
    assert_eq!(list.len(), 2 * MAX_LEVEL - 11 - 1);
}

#[test]
fn the_shape_does_not_show_in_the_contents() {
    let keys = [13, 2, 8, 21, 1, 5, 3, 34];
    let mut flat: SkipList<i32, i32> = SkipList::new();
    let mut tall: SkipList<i32, i32> = SkipList::new();
    let mut drawn: SkipList<i32, i32> = SkipList::new();
    for k in keys {
        flat.insert_with_level(k, k, 0);
        tall.insert_with_level(k, k, MAX_LEVEL - 1);
        drawn.insert(k, k);
    }
    for k in [8, 1, 34] {
        assert_eq!(flat.remove(&k), Some(k));
        assert_eq!(tall.remove(&k), Some(k));
        assert_eq!(drawn.remove(&k), Some(k));
    }
    let expected = vec![(2, 2), (3, 3), (5, 5), (13, 13), (21, 21)];
    assert_eq!(listing(&flat), expected);
    assert_eq!(listing(&tall), expected);
    assert_eq!(listing(&drawn), expected);
}

#[test]
fn try_insert_puts_in_and_replaces() {
    let mut list: SkipList<i32, i32> = SkipList::new();
    assert!(matches!(list.try_insert(4, 40), Ok(None)));
    assert!(matches!(list.try_insert(2, 20), Ok(None)));
    assert!(matches!(list.try_insert(4, 44), Ok(Some(40))));
    assert_eq!(listing(&list), vec![(2, 20), (4, 44)]);
    assert_eq!(list.remove(&2), Some(20));
    assert!(matches!(list.try_insert(3, 30), Ok(None)));
    assert_eq!(listing(&list), vec![(3, 30), (4, 44)]);
}

#[test]
fn vacated_slots_are_used_again() {
    let mut list: SkipList<u32, u32> = SkipList::new();
    for round in 0..50u32 {
        for k in 0..40u32 {
            assert_eq!(list.insert(k, round), None);
        }
        assert_eq!(list.len(), 40);
        for k in 0..40u32 {
            if round % 2 == 0 {
                assert_eq!(list.remove(&k), Some(round));
            } else {
                assert_eq!(list.pop_front(), Some((k, round)));
            }
        }
        assert!(list.is_empty());
    }
}

#[test]
fn agrees_with_a_b_tree_map_on_a_long_run() {
    let mut list: SkipList<u64, u64> = SkipList::new();
    let mut model: BTreeMap<u64, u64> = BTreeMap::new();
    let mut state: u64 = 0x9E3779B97F4A7C15;
    for step in 0..200000u64 {
        state = state.wrapping_mul(6364136223846793005).wrapping_add(1442695040888963407);
        let key = (state >> 33) % 701;
        match (state >> 20) % 5 {
            0 | 1 => assert_eq!(list.insert(key, step), model.insert(key, step)),
            2 => assert_eq!(list.remove(&key), model.remove(&key)),
            3 => assert_eq!(list.get(&key), model.get(&key)),
            _ => {
                let found = list.get_mut(&key);
                let expected = model.get_mut(&key);
                assert_eq!(found.is_some(), expected.is_some());
                if let (Some(a), Some(b)) = (found, expected) {
                    *a += 1;
                    *b += 1;
                }
            }
        }
        assert_eq!(list.len(), model.len());
    }
    let expected: Vec<(u64, u64)> = model.into_iter().collect();
    assert_eq!(drained(list), expected);
}

#[test]
fn a_level_is_the_run_of_low_set_bits() {
    assert_eq!(level_from_bits(0), 0);
    assert_eq!(level_from_bits(1), 1);
    assert_eq!(level_from_bits(2), 0);
    assert_eq!(level_from_bits(3), 2);
    assert_eq!(level_from_bits(0b0111), 3);
    assert_eq!(level_from_bits(0b1011), 2);
    assert_eq!(level_from_bits(0xFFFF), 16);
    assert_eq!(level_from_bits((1u64 << 30) - 1), 30);
    assert_eq!(level_from_bits((1u64 << 31) - 1), 31);
    assert_eq!(level_from_bits((1u64 << 32) - 1), 31);
    assert_eq!(level_from_bits(u64::MAX), 31);
    assert_eq!(level_from_bits(u64::MAX - 1), 0);
    assert_eq!(MAX_LEVEL, 32);
}

#[test]
fn drawn_levels_stay_below_the_maximum_and_vary() {
    let mut counts = [0usize; MAX_LEVEL];
    for _ in 0..100000 {
        let level = random_level();
        assert!(level < MAX_LEVEL);
        counts[level] += 1;
    }
    assert!(counts[0] > 40000 && counts[0] < 60000);
    assert!(counts[1] > 15000 && counts[1] < 35000);
    assert!(counts[0] > counts[2]);
}

#[test]
fn framing_writes_brackets_and_commas() {
    assert_eq!(frame_entries(&vec![]), "{}");
    assert_eq!(frame_entries(&vec![("1".to_string(), "a".to_string())]), "{(1, a)}");
    assert_eq!(
        frame_entries(&vec![
            ("1".to_string(), "a".to_string()),
            ("2".to_string(), "b".to_string()),
            ("30".to_string(), "".to_string()),
        ]),
        "{(1, a), (2, b), (30, )}"
    );
}

#[test]
fn to_string_lists_the_entries_in_order() {
    let mut list: SkipList<i32, &str> = SkipList::new();
    assert_eq!(list.to_string(), "{}");
    list.insert(3, "c");
    assert_eq!(list.to_string(), "{(3, c)}");
    list.insert(-1, "z");
    list.insert(2, "b");
    assert_eq!(list.to_string(), "{(-1, z), (2, b), (3, c)}");
}

#[test]
fn keys_of_any_ordered_type() {
    let mut list: SkipList<String, usize> = SkipList::new();
    for word in ["pear", "apple", "fig", "apple", "kiwi"] {
        let n = word.len();
        list.insert(word.to_string(), n);
    }
    assert_eq!(
        listing(&list),
        vec![
            ("apple".to_string(), 5),
            ("fig".to_string(), 3),
            ("kiwi".to_string(), 4),
            ("pear".to_string(), 4)
        ]
    );
    assert_eq!(list.remove(&"fig".to_string()), Some(3));
    assert_eq!(list.get(&"fig".to_string()), None);
}
