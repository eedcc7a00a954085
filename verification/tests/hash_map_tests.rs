use algolab::hash_map::{DefaultKeyHasher, HashMap, KeyHasher, Ratio};

struct Constant;

impl KeyHasher<u64> for Constant {
    fn digest(&self, _key: u64) -> u64 {
        7
    }

    fn hash(&self, _key: &u64) -> u64 {
        7
    }
}

struct Identity;

impl KeyHasher<u64> for Identity {
    fn digest(&self, key: u64) -> u64 {
        key
    }

    fn hash(&self, key: &u64) -> u64 {
        *key
    }
}

#[test]
fn default_map_has_sixteen_buckets_and_max_load_two() {
    let map: HashMap<u64, u64> = HashMap::default();
    assert!(map.is_empty());
    assert_eq!(map.len(), 0);
    assert_eq!(map.max_load_factor(), Ratio { numerator: 2, denominator: 1 });
    assert_eq!(map.load_factor(), Ratio { numerator: 0, denominator: 16 });
}

#[test]
fn insert_then_get_returns_the_value() {
    let mut map: HashMap<u64, &str> = HashMap::default();
    map.insert(1, "one");
    map.insert(2, "two");
    map.insert(3, "three");
    assert_eq!(map.get(&1), Some(&"one"));
    assert_eq!(map.get(&2), Some(&"two"));
    assert_eq!(map.get(&3), Some(&"three"));
    assert_eq!(*map.index(&2), "two");
    assert_eq!(map.get(&4), None);
    assert_eq!(map.len(), 3);
    assert!(!map.is_empty());
}

#[test]
fn insert_of_an_existing_key_keeps_the_length() {
    let mut map: HashMap<i32, i32> = HashMap::new(4);
    map.insert(-5, 1);
    map.insert(-5, 2);
    map.insert(-5, 3);
    assert_eq!(map.len(), 1);
    assert_eq!(map.get(&-5), Some(&3));
}

#[test]
fn remove_returns_the_value_and_shrinks_the_map() {
    let mut map: HashMap<u32, u32> = HashMap::default();
    map.insert(10, 100);
    map.insert(20, 200);
    map.insert(30, 300);
    assert_eq!(map.remove(&20), Some(200));
    assert_eq!(map.len(), 2);
    assert_eq!(map.get(&20), None);
    assert_eq!(map.remove(&20), None);
    assert_eq!(map.len(), 2);
    assert_eq!(map.get(&10), Some(&100));
    assert_eq!(map.get(&30), Some(&300));
}

#[test]
fn length_is_the_number_of_distinct_keys() {
    let mut map: HashMap<u64, u64> = HashMap::new(1);
    let mut model = std::collections::BTreeMap::new();
    let mut key: u64 = 3;
    for step in 0..2000u64 {
        key = (key * 1103515245 + 12345) % 257;
        if step % 3 == 2 {
            assert_eq!(map.remove(&key), model.remove(&key));
        } else {
            map.insert(key, step);
            model.insert(key, step);
        }
        assert_eq!(map.len(), model.len());
    }
    for (key, value) in &model {
        assert_eq!(map.get(key), Some(value));
    }
}

#[test]
fn map_grows_before_it_reaches_the_maximum_load() {
    let mut map: HashMap<u64, u64, Identity> = HashMap::with_capacity_and_hasher(1, Identity);
    // one bucket, maximum load 2: the first insert brings the load to 1 only
    map.insert(0, 0);
    assert_eq!(map.load_factor(), Ratio { numerator: 1, denominator: 1 });
    // the second would bring it to 2: the map grows to 3 buckets first
    map.insert(1, 1);
    assert_eq!(map.load_factor(), Ratio { numerator: 2, denominator: 3 });
    for key in 2..5 {
        map.insert(key, key);
    }
    assert_eq!(map.load_factor(), Ratio { numerator: 5, denominator: 3 });
    // a sixth entry would make 6 to 3: the map grows to 7 buckets
    map.insert(5, 5);
    assert_eq!(map.load_factor(), Ratio { numerator: 6, denominator: 7 });
    for key in 0..6 {
        assert_eq!(map.get(&key), Some(&key));
    }
}

#[test]
fn load_never_exceeds_the_maximum_after_an_insert() {
    let mut map: HashMap<u64, u64> = HashMap::new(2);
    for key in 0..500u64 {
        map.insert(key * 7, key);
        let load = map.load_factor();
        let max = map.max_load_factor();
        assert!(
            (load.numerator as u128) * (max.denominator as u128)
                <= (max.numerator as u128) * (load.denominator as u128)
        );
    }
    assert_eq!(map.len(), 500);
}

#[test]
fn map_without_buckets_grows_on_the_first_insert() {
    let mut map: HashMap<u64, u64> = HashMap::new(0);
    assert_eq!(map.load_factor(), Ratio { numerator: 0, denominator: 1 });
    assert_eq!(map.get(&1), None);
    assert_eq!(map.remove(&1), None);
    map.insert(1, 10);
    assert_eq!(map.load_factor(), Ratio { numerator: 1, denominator: 1 });
    assert_eq!(map.get(&1), Some(&10));
}

#[test]
fn set_max_load_factor_ignores_what_is_not_positive() {
    let mut map: HashMap<u64, u64> = HashMap::default();
    map.set_max_load_factor(Ratio { numerator: 4, denominator: 1 });
    assert_eq!(map.max_load_factor(), Ratio { numerator: 4, denominator: 1 });
    map.set_max_load_factor(Ratio { numerator: 0, denominator: 1 });
    assert_eq!(map.max_load_factor(), Ratio { numerator: 4, denominator: 1 });
    map.set_max_load_factor(Ratio { numerator: 1, denominator: 0 });
    assert_eq!(map.max_load_factor(), Ratio { numerator: 4, denominator: 1 });
    map.set_max_load_factor(Ratio { numerator: 3, denominator: 4 });
    assert_eq!(map.max_load_factor(), Ratio { numerator: 3, denominator: 4 });
}

#[test]
fn a_small_maximum_load_can_be_exceeded_after_one_growth() {
    let mut map: HashMap<u64, u64, Identity> = HashMap::with_capacity_and_hasher(1, Identity);
    map.set_max_load_factor(Ratio { numerator: 1, denominator: 10 });
    map.insert(0, 0);
    // grown once, from 1 to 3 buckets: 1 to 3 is more than 1 to 10
    assert_eq!(map.load_factor(), Ratio { numerator: 1, denominator: 3 });
}

#[test]
fn clear_keeps_the_buckets() {
    let mut map: HashMap<u64, u64> = HashMap::new(5);
    map.insert(1, 1);
    map.insert(2, 2);
    map.clear();
    assert!(map.is_empty());
    assert_eq!(map.get(&1), None);
    assert_eq!(map.load_factor(), Ratio { numerator: 0, denominator: 5 });
    map.insert(3, 3);
    assert_eq!(map.get(&3), Some(&3));
}

#[test]
fn colliding_keys_share_a_bucket_and_stay_apart() {
    let mut map: HashMap<u64, u64, Constant> = HashMap::with_capacity_and_hasher(8, Constant);
    for key in 0..10 {
        map.insert(key, key * key);
    }
    assert_eq!(map.len(), 10);
    for key in 0..10 {
        assert_eq!(map.get(&key), Some(&(key * key)));
    }
    assert_eq!(map.remove(&4), Some(16));
    assert_eq!(map.get(&4), None);
    assert_eq!(map.get(&5), Some(&25));
    assert_eq!(map.get(&3), Some(&9));
    assert_eq!(map.len(), 9);
}

#[test]
fn default_hasher_gives_the_same_digest_every_time() {
    let hasher = DefaultKeyHasher {};
    let first = KeyHasher::<u64>::hash(&hasher, &42);
    let second = KeyHasher::<u64>::hash(&hasher, &42);
    assert_eq!(first, second);
    assert_eq!(KeyHasher::<u32>::hash(&hasher, &42), first);
    assert_ne!(KeyHasher::<u64>::hash(&hasher, &43), first);
}
