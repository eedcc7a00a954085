use algolab::ordered_map::{MapIterator, OrderedMap};

fn collect<'a>(mut entries: MapIterator<'a, i32, &'static str>) -> Vec<(i32, &'static str)> {
    let mut all = Vec::new();
    while let Some((key, value)) = entries.next() {
        all.push((*key, *value));
    }
    all
}

fn sample() -> OrderedMap<i32, &'static str> {
    let mut map = OrderedMap::new();
    map.insert(8, "eight");
    map.insert(-2, "minus two");
    map.insert(3, "three");
    map.insert(10, "ten");
    map.insert(1, "one");
    map.insert(6, "six");
    map.insert(14, "fourteen");
    map.insert(4, "four");
    map.insert(7, "seven");
    map.insert(13, "thirteen");
    map
}

#[test]
fn new_map_is_empty() {
    let map: OrderedMap<i32, &str> = OrderedMap::new();
    assert!(map.is_empty());
    assert!(map.iter().next().is_none());
    assert!(map.get(&1).is_none());
    assert!(map.find(&1).is_none());
}

#[test]
fn iteration_is_in_ascending_key_order() {
    let map = sample();
    assert!(!map.is_empty());
    assert_eq!(
        collect(map.iter()),
        vec![
            (-2, "minus two"),
            (1, "one"),
            (3, "three"),
            (4, "four"),
            (6, "six"),
            (7, "seven"),
            (8, "eight"),
            (10, "ten"),
            (13, "thirteen"),
            (14, "fourteen"),
        ]
    );
}

#[test]
fn inserting_an_existing_key_overwrites_its_value() {
    let mut map = sample();
    map.insert(6, "half a dozen");
    let all = collect(map.iter());
    assert_eq!(all.len(), 10);
    assert_eq!(map.get(&6), Some(&"half a dozen"));
    assert_eq!(*map.index(6), "half a dozen");
    assert_eq!(all[4], (6, "half a dozen"));
}

#[test]
fn get_distinguishes_present_and_absent_keys() {
    let map = sample();
    assert_eq!(map.get(&14), Some(&"fourteen"));
    assert_eq!(map.get(&-2), Some(&"minus two"));
    assert_eq!(map.get(&5), None);
    assert_eq!(map.get(&100), None);
}

#[test]
fn find_starts_at_the_key_and_goes_on_to_the_end() {
    let map = sample();
    let rest = map.find(&6).expect("6 is in the map");
    assert_eq!(
        collect(rest),
        vec![
            (6, "six"),
            (7, "seven"),
            (8, "eight"),
            (10, "ten"),
            (13, "thirteen"),
            (14, "fourteen"),
        ]
    );
    let last = map.find(&14).expect("14 is in the map");
    assert_eq!(collect(last), vec![(14, "fourteen")]);
    let first = map.find(&-2).expect("-2 is in the map");
    assert_eq!(collect(first).len(), 10);
}

#[test]
fn find_of_an_absent_key_is_none() {
    let map = sample();
    assert!(map.find(&5).is_none());
    assert!(map.find(&15).is_none());
    assert!(map.find(&-3).is_none());
}

#[test]
fn clear_empties_the_map() {
    let mut map = sample();
    map.clear();
    assert!(map.is_empty());
    assert!(map.get(&8).is_none());
    assert!(collect(map.iter()).is_empty());
    map.insert(2, "two");
    assert_eq!(collect(map.iter()), vec![(2, "two")]);
}

#[test]
fn exhausted_iterator_keeps_returning_none() {
    let mut map: OrderedMap<i32, &str> = OrderedMap::new();
    map.insert(1, "one");
    let mut entries = map.iter();
    assert_eq!(entries.next(), Some((&1, &"one")));
    assert_eq!(entries.next(), None);
    assert_eq!(entries.next(), None);
}

#[test]
fn ascending_inserts_stay_sorted_and_findable() {
    let mut map: OrderedMap<u32, u32> = OrderedMap::new();
    for key in 0..1000u32 {
        map.insert(key, key * 2);
    }
    let mut entries = map.iter();
    for key in 0..1000u32 {
        assert_eq!(entries.next(), Some((&key, &(key * 2))));
    }
    assert_eq!(entries.next(), None);
    for key in 0..1000u32 {
        assert_eq!(map.get(&key), Some(&(key * 2)));
    }
    assert_eq!(map.get(&1000), None);
}

#[test]
fn descending_and_mixed_inserts_agree_with_a_sorted_vector() {
    let mut map: OrderedMap<i64, i64> = OrderedMap::new();
    let mut expected: Vec<(i64, i64)> = Vec::new();
    let mut key: i64 = 7;
    for step in 0..500i64 {
        key = (key * 31 + 17) % 257;
        map.insert(key, step);
        match expected.iter_mut().find(|entry| entry.0 == key) {
            Some(entry) => entry.1 = step,
            None => expected.push((key, step)),
        }
    }
    expected.sort();
    let mut entries = map.iter();
    for (key, value) in &expected {
        assert_eq!(entries.next(), Some((key, value)));
    }
    assert_eq!(entries.next(), None);
}

#[test]
fn into_iter_hands_over_all_entries_in_order() {
    let map = sample();
    let mut all = Vec::new();
    for (key, value) in map.into_iter() {
        all.push((key, value));
    }
    assert_eq!(all.len(), 10);
    assert_eq!(all[0], (-2, "minus two"));
    assert_eq!(all[9], (14, "fourteen"));
    assert!(all.windows(2).all(|pair| pair[0].0 < pair[1].0));
    let empty: OrderedMap<i32, &str> = OrderedMap::new();
    assert!(empty.into_iter().is_empty());
}

#[test]
fn a_clone_holds_the_same_entries_and_lives_on_its_own() {
    let mut a = sample();
    let b = a.clone();
    a.insert(6, "half a dozen");
    a.insert(100, "hundred");
    assert_eq!(b.get(&6), Some(&"six"));
    assert_eq!(b.get(&100), None);
    assert_eq!(collect(b.iter()).len(), 10);
    a.clear();
    assert!(a.is_empty());
    assert!(!b.is_empty());
    assert_eq!(*b.index(8), "eight");
}

#[test]
fn height_stays_logarithmic() {
    let mut map: OrderedMap<u32, u32> = OrderedMap::new();
    assert_eq!(map.height(), -1);
    map.insert(0, 0);
    assert_eq!(map.height(), 0);
    for key in 1..1023u32 {
        map.insert(key, key);
    }
    assert_eq!(map.height(), 9);
    map.insert(1023, 1023);
    assert_eq!(map.height(), 10);
}
