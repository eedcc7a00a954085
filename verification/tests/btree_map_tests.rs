use algolab::btree_map::{BtreeIterator, BtreeMap};

fn collect<'a>(mut entries: BtreeIterator<'a, i32, i32>) -> Vec<(i32, i32)> {
    let mut all = Vec::new();
    while let Some((key, value)) = entries.next() {
        all.push((*key, *value));
    }
    all
}

fn scrambled(count: i32) -> Vec<i32> {
    let mut keys = Vec::new();
    let mut key = 5;
    for _ in 0..count {
        key = (key * 37 + 11) % 1009;
        keys.push(key);
    }
    keys
}

#[test]
fn new_btree_is_empty() {
    let map: BtreeMap<i32, i32> = BtreeMap::new(2);
    assert!(map.is_empty());
    assert!(collect(map.iter()).is_empty());
    assert!(collect(map.find(&3)).is_empty());
    assert_eq!(map.get(&3), None);
}

#[test]
fn single_entry_btree() {
    let mut map: BtreeMap<i32, i32> = BtreeMap::new(3);
    map.insert(4, 40);
    assert!(!map.is_empty());
    assert_eq!(collect(map.iter()), vec![(4, 40)]);
    assert_eq!(map.get(&4), Some(&40));
    assert_eq!(*map.index(4), 40);
}

#[test]
fn btree_iteration_is_in_ascending_key_order_for_every_degree() {
    for t in 2..7usize {
        let mut map: BtreeMap<i32, i32> = BtreeMap::new(t);
        let keys = scrambled(400);
        for key in &keys {
            map.insert(*key, key * 10);
        }
        let mut expected: Vec<(i32, i32)> = keys.iter().map(|key| (*key, key * 10)).collect();
        expected.sort();
        expected.dedup();
        assert_eq!(collect(map.iter()), expected);
    }
}

#[test]
fn btree_insert_of_an_existing_key_overwrites() {
    let mut map: BtreeMap<i32, i32> = BtreeMap::new(2);
    for key in 0..50 {
        map.insert(key, key);
    }
    for key in 0..50 {
        map.insert(key, -key);
    }
    let all = collect(map.iter());
    assert_eq!(all.len(), 50);
    for key in 0..50 {
        assert_eq!(all[key as usize], (key, -key));
        assert_eq!(map.get(&key), Some(&-key));
    }
}

#[test]
fn btree_get_distinguishes_present_and_absent_keys() {
    let mut map: BtreeMap<i32, i32> = BtreeMap::new(2);
    for key in (0..200).step_by(2) {
        map.insert(key, key + 1);
    }
    for key in 0..200 {
        if key % 2 == 0 {
            assert_eq!(map.get(&key), Some(&(key + 1)));
        } else {
            assert_eq!(map.get(&key), None);
        }
    }
}

#[test]
fn btree_find_starts_at_the_key_and_goes_on_to_the_end() {
    for t in 2..5usize {
        let mut map: BtreeMap<i32, i32> = BtreeMap::new(t);
        for key in scrambled(120) {
            map.insert(key, key);
        }
        let all = collect(map.iter());
        for (at, (key, _)) in all.iter().enumerate() {
            assert_eq!(collect(map.find(key)), all[at..].to_vec());
        }
    }
}

#[test]
fn btree_find_of_an_absent_key_hands_out_nothing() {
    let mut map: BtreeMap<i32, i32> = BtreeMap::new(2);
    for key in (0..100).step_by(5) {
        map.insert(key, key);
    }
    assert!(collect(map.find(&3)).is_empty());
    assert!(collect(map.find(&-1)).is_empty());
    assert!(collect(map.find(&1000)).is_empty());
}

#[test]
fn btree_clear_empties_the_map() {
    let mut map: BtreeMap<i32, i32> = BtreeMap::new(2);
    for key in 0..30 {
        map.insert(key, key);
    }
    map.clear();
    assert!(map.is_empty());
    assert_eq!(map.get(&3), None);
    map.insert(9, 90);
    assert_eq!(collect(map.iter()), vec![(9, 90)]);
}

#[test]
fn btree_exhausted_iterator_keeps_returning_none() {
    let mut map: BtreeMap<i32, i32> = BtreeMap::new(2);
    map.insert(1, 1);
    map.insert(2, 2);
    let mut entries = map.iter();
    assert_eq!(entries.next(), Some((&1, &1)));
    assert_eq!(entries.next(), Some((&2, &2)));
    assert_eq!(entries.next(), None);
    assert_eq!(entries.next(), None);
}

#[test]
fn btree_into_iter_hands_over_all_entries_in_order() {
    for t in 2..5usize {
        let mut map: BtreeMap<i32, i32> = BtreeMap::new(t);
        for key in scrambled(150) {
            map.insert(key, -key);
        }
        let by_reference = collect(map.iter());
        assert_eq!(map.into_iter(), by_reference);
    }
    let empty: BtreeMap<i32, i32> = BtreeMap::new(2);
    assert!(empty.into_iter().is_empty());
}

#[test]
fn btree_clone_holds_the_same_entries_and_lives_on_its_own() {
    let mut a: BtreeMap<i32, i32> = BtreeMap::new(2);
    for key in scrambled(60) {
        a.insert(key, key);
    }
    let b = a.clone();
    let before = collect(a.iter());
    a.insert(-7, 7);
    a.insert(before[0].0, 0);
    assert_eq!(collect(b.iter()), before);
    assert_eq!(b.get(&-7), None);
    assert_eq!(a.get(&-7), Some(&7));
}
