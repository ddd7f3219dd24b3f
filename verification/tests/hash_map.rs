use olive::hash_map::HashMap;
use olive::hasher::Djb2Hasher;

#[test]
fn hash_map_test_all() {
    let mut map = HashMap::new();
    assert_eq!(map.len(), 0);

    map.insert("a", 1);
    map.insert("b", 2);
    assert_eq!(map.len(), 2);

    assert_eq!(map.get(&"a"), Some(&1));
    assert_eq!(map.get(&"b"), Some(&2));
    assert_eq!(map.get(&"c"), None);

    map.remove(&"a");
    assert_eq!(map.get(&"a"), None);
    assert_eq!(map.len(), 1);

    map.insert("a", 3);
    assert_eq!(map.get(&"a"), Some(&3));
    assert_eq!(map.get(&"b"), Some(&2));

    map.clear();
    assert_eq!(map.len(), 0);

    let mut map3 = HashMap::new();

    for i in 0..1_000_000 {
        let key = format!("key{}", i);
        map3.insert(key, i);
    }

    assert_eq!(map3.len(), 1_000_000);

    for i in 0..1_000_000 {
        let key = format!("key{}", i);
        assert_eq!(map3.get(&key), Some(&i));
    }

    for i in 0..500_000 {
        let key = format!("key{}", i);
        map3.remove(&key);
    }

    assert_eq!(map3.len(), 500_000);

    for i in 0..500_000 {
        let key = format!("key{}", i);
        assert_eq!(map3.get(&key), None);
    }

    for i in 500_000..1_000_000 {
        let key = format!("key{}", i);
        assert_eq!(map3.get(&key), Some(&i));
    }

    for i in 750_000..1_000_000 {
        let key = format!("key{}", i);
        map3.remove(&key);
    }

    assert_eq!(map3.len(), 250_000);

    for i in 750_000..1_000_000 {
        let key = format!("key{}", i);
        assert_eq!(map3.get(&key), None);
    }

    for i in 500_000..750_000 {
        let key = format!("key{}", i);
        assert_eq!(map3.get(&key), Some(&i));
    }

    map3.clear();
    assert_eq!(map3.len(), 0);
}

#[test]
fn hash_map_size_clone_contains() {
    let mut map = HashMap::new();
    assert_eq!(map.size(), 0);

    map.insert("a", 1);
    map.insert("b", 2);
    assert_eq!(map.size(), 2);

    assert_eq!(map.get(&"a"), Some(&1));
    assert_eq!(map.get(&"b"), Some(&2));
    assert_eq!(map.get(&"c"), None);

    map.remove(&"a");
    assert_eq!(map.get(&"a"), None);
    assert_eq!(map.size(), 1);

    map.insert("a", 3);
    assert_eq!(map.get(&"a"), Some(&3));
    assert_eq!(map.get(&"b"), Some(&2));

    let mut map2 = map.clone();
    map2.remove(&"a");

    assert_eq!(map2.size(), 1);
    assert_eq!(map.size(), 2);

    assert!(map.contains(&"a"));
    assert!(map2.contains(&"b"));

    map.clear();
    assert_eq!(map.size(), 0);
}

#[test]
fn iteration_yields_the_live_entries() {
    let mut map: HashMap<usize, usize> = HashMap::new();
    for key in 0..100 {
        map.insert(key, key * key);
    }
    for key in 0..100 {
        if key % 3 == 0 {
            map.remove(&key);
        }
    }
    map.insert(7, 1);
    let mut seen: Vec<(usize, usize)> = Vec::new();
    let mut entries = map.iter();
    while let Some((key, value)) = entries.next() {
        seen.push((*key, *value));
    }
    assert_eq!(seen.len(), map.len());
    seen.sort();
    let expected: Vec<(usize, usize)> = (0..100)
        .filter(|key| key % 3 != 0)
        .map(|key| (key, if key == 7 { 1 } else { key * key }))
        .collect();
    assert_eq!(seen, expected);
    assert!(entries.next().is_none());
}

#[test]
fn keys_of_several_kinds() {
    let mut pairs: HashMap<(usize, char), usize> = HashMap::new();
    pairs.insert((1, 'a'), 2);
    pairs.insert((1, 'b'), 3);
    pairs.insert((2, 'a'), 4);
    pairs.put((1, 'a'), 5);
    assert_eq!(pairs.len(), 3);
    assert_eq!(pairs.get(&(1, 'a')), Some(&5));
    assert_eq!(pairs.get(&(2, 'b')), None);
    let mut words: HashMap<(String, String), String> = HashMap::new();
    words.insert((String::from("ab"), String::from("c")), String::from("x"));
    words.insert((String::from("a"), String::from("bc")), String::from("y"));
    assert_eq!(words.get(&(String::from("ab"), String::from("c"))), Some(&String::from("x")));
    assert_eq!(words.get(&(String::from("a"), String::from("bc"))), Some(&String::from("y")));
    assert!(!words.contains(&(String::from("abc"), String::from(""))));
}

#[test]
fn djb2_hash_of_bytes() {
    let mut hasher = Djb2Hasher::new();
    assert_eq!(hasher.finish(), 5381);
    hasher.write(b"a");
    assert_eq!(hasher.finish(), 5381 * 33 + 97);
    hasher.write(b"b");
    assert_eq!(hasher.finish(), (5381 * 33 + 97) * 33 + 98);
    let mut long = Djb2Hasher::new();
    long.write(&[255u8; 64]);
    let mut expected: u64 = 5381;
    for _ in 0..64 {
        expected = expected.wrapping_mul(33).wrapping_add(255);
    }
    assert_eq!(long.finish(), expected);
    let mut number = Djb2Hasher::new();
    number.write_int(0x0102, 2);
    assert_eq!(number.finish(), (5381 * 33 + 2) * 33 + 1);
}
