use algorithm::LruKCache;

#[test]
fn lruk_readme_example() {
    let mut lru = LruKCache::with_times(3, 3);
    lru.insert("this", "lru");
    for _ in 0..3 {
        let _ = lru.get(&"this");
    }
    lru.insert("hello", "algorithm");
    lru.insert("auth", "tickbh");
    assert!(lru.len() == 3);
    lru.insert("auth1", "tickbh");
    assert_eq!(lru.get(&"this"), Some(&"lru"));
    assert_eq!(lru.get(&"hello"), None);
    assert!(lru.len() == 3);
}

#[test]
fn lruk_clear() {
    let mut lru = LruKCache::new(3, 2);
    lru.insert("now", "ok");
    lru.insert("hello", "algorithm");
    lru.insert("this", "lru");
    assert!(lru.len() == 3);
    lru.clear();
    assert!(lru.len() == 0);
    assert!(lru.is_empty());
}

#[test]
fn lruk_iter_keys_values() {
    let mut lru = LruKCache::new(3, 2);
    lru.insert("this", "lru");
    for _ in 0..3 {
        let _ = lru.get(&"this");
    }
    lru.insert("hello", "algorithm");
    for (k, v) in lru.iter() {
        assert!(k == &"hello" || k == &"this");
        assert!(v == &"algorithm" || v == &"lru");
    }
    assert!(lru.len() == 2);
    assert_eq!(lru.keys(), vec![&"this", &"hello"]);
    assert_eq!(lru.values(), vec![&"lru", &"algorithm"]);
}

#[test]
fn lruk_pop_and_pop_last() {
    let mut lru = LruKCache::new(3, 2);
    lru.insert("hello", "algorithm");
    lru.insert("this", "lru");
    assert!(lru.pop() == Some(("this", "lru")));
    assert!(lru.len() == 1);
    let mut lru = LruKCache::new(3, 2);
    lru.insert("hello", "algorithm");
    lru.insert("this", "lru");
    assert!(lru.pop_last() == Some(("hello", "algorithm")));
    assert!(lru.len() == 1);
}

#[test]
fn lruk_get_insert_remove() {
    let mut lru = LruKCache::new(3, 2);
    lru.insert("hello", "algorithm");
    lru.insert("this", "lru");
    assert!(lru.get(&"this") == Some(&"lru"));
    assert!(lru.get_key_value(&"this") == Some((&"this", &"lru")));
    assert!(lru.insert("this", "lru good") == Some("lru"));
    assert!(lru.remove(&"this") == Some(("this", "lru good")));
    assert!(lru.len() == 1);
    assert_eq!(lru.capacity(), 3);
}

#[test]
fn lruk_evicts_main_when_history_empty() {
    // with times 1 every entry goes straight to the main list
    let mut lru = LruKCache::new(2, 1);
    lru.insert(1, 10);
    lru.insert(2, 20);
    assert_eq!(lru.insert(3, 30), None);
    assert_eq!(lru.len(), 2);
    assert_eq!(lru.get(&1), None);
    assert_eq!(lru.get(&3), Some(&30));
    assert_eq!(lru.capture_insert(2, 21), Some((2, 20)));
}

#[test]
fn lruk_get_mut_changes_value() {
    let mut lru = LruKCache::new(3, 2);
    lru.insert("hello", "algorithm".to_string());
    lru.insert("this", "lru".to_string());
    lru.get_mut(&"this").unwrap().insert_str(3, " good");
    assert!(lru.get_key_value(&"this") == Some((&"this", &"lru good".to_string())));
}
