use itertools::Itertools;
use rand::random;
use skip_list::SkipList;
use std::collections::HashMap;

const TEST_SIZE: usize = 10000000;

#[test]
fn new() {
    let skip_list: SkipList<i32, i32> = SkipList::new();
    assert_eq!(skip_list.len(), 0);
}

#[test]
fn contains() {
    let mut data: HashMap<u64, u64> = HashMap::new();

    while data.len() < TEST_SIZE {
        let k = random();
        if data.contains_key(&k) {
            continue;
        }
        let v = random();

        data.insert(k, v);
    }

    let data = data.into_iter().sorted().collect_vec();

    let mut skip_list = SkipList::new();
    for &(k, v) in data.iter() {
        skip_list.insert(k, v);
    }

    assert_eq!(skip_list.len(), TEST_SIZE);

    let mut res = Vec::new();
    let mut entries = skip_list.into_iter();
    while let Some(entry) = entries.next() {
        res.push(entry);
    }
    assert_eq!(res, data);
}

#[test]
fn remove() {
    let mut data: HashMap<u64, u64> = HashMap::new();

    while data.len() < TEST_SIZE {
        let k = random();
        if data.contains_key(&k) {
            continue;
        }
        let v = random();
        data.insert(k, v);
    }

    let data = data.into_iter().sorted().collect_vec();
    let delete_keys = data
        .iter()
        .map(|&(k, _)| k)
        .filter(|&k| k % 2 == 0)
        .collect_vec();

    let mut skip_list = SkipList::new();
    for &(k, v) in data.iter() {
        skip_list.insert(k, v);
    }

    assert_eq!(skip_list.len(), TEST_SIZE);

    for &k in delete_keys.iter() {
        skip_list.remove(&k);
        assert!(skip_list.get(&k).is_none());
    }
}

#[test]
fn clear() {
    let mut data: HashMap<u64, u64> = HashMap::new();

    while data.len() < TEST_SIZE {
        let k = random();
        if data.contains_key(&k) {
            continue;
        }
        let v = random();

        data.insert(k, v);
    }

    let data = data.into_iter().sorted().collect_vec();

    let mut skip_list = SkipList::new();
    for &(k, v) in data.iter() {
        skip_list.insert(k, v);
    }

    assert_eq!(skip_list.len(), TEST_SIZE);

    skip_list.clear();
    assert_eq!(skip_list.len(), 0);
    assert_eq!(skip_list.is_empty(), true);
}

#[test]
fn get() {
    let mut data: HashMap<u64, u64> = HashMap::new();

    while data.len() < TEST_SIZE {
        let k = random();
        if data.contains_key(&k) {
            continue;
        }
        let v = random();

        data.insert(k, v);
    }

    let data = data.into_iter().sorted().collect_vec();

    let mut skip_list = SkipList::new();
    for &(k, v) in data.iter() {
        skip_list.insert(k, v);
    }

    assert_eq!(skip_list.len(), TEST_SIZE);

    for &(k, v) in data.iter() {
        assert_eq!(skip_list.get(&k), Some(&v));
    }
}

#[test]
fn clone() {
    let mut data: HashMap<u64, u64> = HashMap::new();
    while data.len() < TEST_SIZE {
        let k = random();
        if data.contains_key(&k) {
            continue;
        }
        let v = random();
        data.insert(k, v);
    }

    let data = data.into_iter().sorted().collect_vec();

    let mut skip_list = SkipList::new();
    for &(k, v) in data.iter() {
        skip_list.insert(k, v);
    }

    let skip_list2 = skip_list.clone();

    assert_eq!(skip_list.len(), skip_list2.len());

    let mut entries = skip_list.iter();
    while let Some((k, v)) = entries.next() {
        assert_eq!(skip_list2.get(k), Some(v));
    }

    let mut left = Vec::new();
    let mut from_left = skip_list.into_iter();
    while let Some(entry) = from_left.next() {
        left.push(entry);
    }
    let mut right = Vec::new();
    let mut from_right = skip_list2.into_iter();
    while let Some(entry) = from_right.next() {
        right.push(entry);
    }
    assert_eq!(left, right);
}
