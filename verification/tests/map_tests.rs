use chained_map::HashMap;

#[test]
fn insert() {
    let mut map = HashMap::new();
    assert_eq!(map.len(), 0);
    map.insert("foo", 42);
    assert_eq!(map.len(), 1);
    assert_eq!(map.get(&"foo"), Some(&42));
    assert_eq!(map.remove(&"foo"), Some(42));
    assert_eq!(map.len(), 0);
    assert_eq!(map.get(&"foo"), None);
}

#[test]
fn iter() {
    let mut map = HashMap::new();
    map.insert("foo", 42);
    map.insert("bar", 43);
    map.insert("baz", 44);
    map.insert("quux", 45);
    let mut it = map.iter();
    while let Some((&k, &v)) = it.next() {
        match k {
            "foo" => assert_eq!(v, 42),
            "bar" => assert_eq!(v, 43),
            "baz" => assert_eq!(v, 44),
            "quux" => assert_eq!(v, 45),
            _ => unreachable!(),
        }
    }
    let mut it2 = map.iter();
    let mut count: usize = 0;
    while it2.next().is_some() {
        count += 1;
    }
    assert_eq!(count, 4);
}

#[test]
fn empty_map_reports_nothing() {
    let mut map: HashMap<&str, u32> = HashMap::new();
    assert_eq!(map.len(), 0);
    assert!(map.is_empty());
    assert_eq!(map.get(&"anything"), None);
    assert!(!map.contains_key(&"anything"));
    assert_eq!(map.remove(&"anything"), None);
    assert_eq!(map.len(), 0);
    let mut it = map.iter();
    assert!(it.next().is_none());
}

#[test]
fn update_returns_previous_value() {
    let mut map = HashMap::new();
    assert_eq!(map.insert("k", 1), None);
    assert_eq!(map.len(), 1);
    assert_eq!(map.insert("k", 2), Some(1));
    assert_eq!(map.len(), 1);
    assert_eq!(map.get(&"k"), Some(&2));
}

#[test]
fn absent_keys_stay_absent() {
    let mut map = HashMap::new();
    map.insert("a", 1);
    map.insert("b", 2);
    assert_eq!(map.get(&"c"), None);
    assert!(!map.contains_key(&"c"));
    assert!(map.contains_key(&"a"));
    assert!(map.contains_key(&"b"));
}

#[test]
fn remove_present_and_absent() {
    let mut map = HashMap::new();
    map.insert("a", 10);
    map.insert("b", 20);
    assert_eq!(map.len(), 2);
    assert_eq!(map.remove(&"a"), Some(10));
    assert_eq!(map.len(), 1);
    assert_eq!(map.get(&"a"), None);
    assert_eq!(map.remove(&"a"), None);
    assert_eq!(map.len(), 1);
    assert_eq!(map.get(&"b"), Some(&20));
}

#[test]
fn growth_preserves_entries() {
    // The bucket array starts at one bucket, so forty inserts drive it
    // through several doublings; nothing may be lost or duplicated.
    let mut map = HashMap::new();
    for i in 0..40u32 {
        assert_eq!(map.insert(format!("key-{}", i), i), None);
    }
    assert_eq!(map.len(), 40);
    for i in 0..40u32 {
        assert_eq!(map.get(&format!("key-{}", i)), Some(&i));
    }
    assert_eq!(map.remove(&format!("key-{}", 7)), Some(7));
    assert_eq!(map.len(), 39);
    assert_eq!(map.get(&format!("key-{}", 7)), None);
}

#[test]
fn iteration_yields_each_entry_once() {
    let mut map = HashMap::new();
    for i in 0..25u32 {
        map.insert(format!("entry-{}", i), i);
    }
    let mut seen = vec![false; 25];
    let mut yielded: usize = 0;
    let mut it = map.iter();
    while let Some((k, v)) = it.next() {
        assert_eq!(map.get(k), Some(v));
        let i = *v as usize;
        assert!(!seen[i], "pair yielded twice");
        seen[i] = true;
        yielded += 1;
    }
    assert_eq!(yielded, map.len());
    assert!(seen.iter().all(|&s| s));
}

#[test]
fn book_reviews_scenario() {
    let mut reviews = HashMap::new();
    reviews.insert(
        String::from("Huckleberry Finn"),
        String::from("My favorite book."),
    );
    reviews.insert(
        String::from("Grimms' Fairy Tales"),
        String::from("Masterpiece."),
    );
    reviews.insert(
        String::from("Pride and Prejudice"),
        String::from("Very enjoyable."),
    );
    reviews.insert(String::from("Sherlock Holmes"), String::from("liked it"));
    assert!(!reviews.contains_key(&String::from("Les Misérables")));
    assert_eq!(
        reviews.remove(&String::from("Sherlock Holmes")),
        Some(String::from("liked it"))
    );
    assert_eq!(
        reviews.get(&String::from("Pride and Prejudice")),
        Some(&String::from("Very enjoyable."))
    );
    assert_eq!(reviews.get(&String::from("Alice in Wonderland")), None);
    assert_eq!(reviews.len(), 3);
}

#[test]
fn borrowed_key_lookup() {
    // A map with owned text keys answers queries made with plain string
    // slices: no owned key is built for a lookup.
    let mut map = HashMap::new();
    map.insert(String::from("alpha"), 1);
    map.insert(String::from("beta"), 2);
    assert_eq!(map.get(&"alpha"), Some(&1));
    assert!(map.contains_key(&"beta"));
    assert!(!map.contains_key(&"gamma"));
    assert_eq!(map.remove(&"beta"), Some(2));
    assert_eq!(map.remove(&"beta"), None);
    assert_eq!(map.len(), 1);
}

#[test]
fn integer_keys() {
    let mut map = HashMap::new();
    for i in 0..10u64 {
        assert_eq!(map.insert(i, i * i), None);
    }
    assert_eq!(map.len(), 10);
    assert_eq!(map.get(&4u64), Some(&16));
    assert_eq!(map.remove(&4u64), Some(16));
    assert_eq!(map.get(&4u64), None);
    assert_eq!(map.len(), 9);
    assert!(!map.contains_key(&100u64));
}

#[test]
fn len_counts_distinct_keys() {
    let mut map = HashMap::new();
    map.insert("x", 1);
    map.insert("y", 2);
    map.insert("x", 3);
    map.insert("z", 4);
    map.insert("y", 5);
    assert_eq!(map.len(), 3);
    assert_eq!(map.get(&"x"), Some(&3));
    assert_eq!(map.get(&"y"), Some(&5));
    assert_eq!(map.get(&"z"), Some(&4));
}
