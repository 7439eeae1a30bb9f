use algorithm::ArcCache;

#[test]
fn arc_insert_len_clear() {
    let mut arc = ArcCache::new(3);
    arc.insert("now", "ok");
    arc.insert("hello", "algorithm");
    arc.insert("this", "arc");
    assert!(arc.len() == 3);
    arc.clear();
    assert!(arc.len() == 0);
    assert!(arc.is_empty());
}

#[test]
fn arc_pop_and_pop_last() {
    let mut arc = ArcCache::new(3);
    arc.insert("hello", "algorithm");
    arc.insert("this", "arc");
    assert!(arc.pop() == Some(("this", "arc")));
    assert!(arc.len() == 1);
    let mut arc = ArcCache::new(3);
    arc.insert("hello", "algorithm");
    arc.insert("this", "arc");
    assert!(arc.pop_last() == Some(("hello", "algorithm")));
    assert!(arc.len() == 1);
}

#[test]
fn arc_get_and_raw_get() {
    let mut arc = ArcCache::new(3);
    arc.insert("hello", "algorithm");
    arc.insert("this", "arc");
    assert!(arc.raw_get(&"this") == Some(&"arc"));
    assert!(arc.get(&"this") == Some(&"arc"));
    // a second read finds it in the counted list
    assert!(arc.get(&"this") == Some(&"arc"));
    assert!(arc.contains_key(&"this"));
    assert!(arc.get(&"none") == None);
}

#[test]
fn arc_get_mut_changes_value() {
    let mut arc = ArcCache::new(3);
    arc.insert("hello", "algorithm".to_string());
    arc.insert("this", "arc".to_string());
    arc.get_mut(&"this").unwrap().insert_str(3, " good");
    assert!(arc.get(&"this") == Some(&"arc good".to_string()));
    *arc.get_or_insert_mut("hello", || String::new()) = "changed".to_string();
    assert!(arc.raw_get(&"hello") == Some(&"changed".to_string()));
}

#[test]
fn arc_insert_replaces_and_ghosts() {
    let mut arc = ArcCache::new(2);
    arc.insert("a", 1);
    assert_eq!(arc.insert("a", 2), Some(1));
    arc.insert("b", 3);
    // the recency list is full: "a" moves to its ghost list
    assert_eq!(arc.insert("c", 4), None);
    assert!(!arc.contains_key(&"a"));
    assert_eq!(arc.len(), 3);
    // reading "a" brings it back from the ghost list
    assert_eq!(arc.get(&"a"), Some(&2));
    assert!(arc.contains_key(&"a"));
}

#[test]
fn arc_remove() {
    let mut arc = ArcCache::new(3);
    arc.insert("hello", "algorithm");
    arc.insert("this", "arc");
    assert!(arc.remove(&"this") == Some(("this", "arc")));
    assert!(arc.len() == 1);
    assert!(arc.remove(&"this") == None);
}

#[test]
fn arc_get_or_insert_mut_puts_absent_key() {
    let mut a = ArcCache::new(3);
    let mut calls = 0;
    assert_eq!(
        *a.get_or_insert_mut("k", || {
            calls += 1;
            7
        }),
        7
    );
    assert_eq!(calls, 1);
    assert!(a.contains_key(&"k"));
    assert_eq!(a.raw_get(&"k"), Some(&7));
    // present now: found, `f` not called
    assert_eq!(*a.get_or_insert_mut("k", || 8), 7);
    assert_eq!(a.raw_get(&"k"), Some(&7));
}

#[test]
fn arc_get_or_insert_reads_or_puts() {
    let mut a = ArcCache::new(2);
    a.insert("x", 1);
    assert_eq!(*a.get_or_insert("x", || 9), 1);
    assert_eq!(*a.get_or_insert("y", || 9), 9);
    assert_eq!(a.raw_get(&"y"), Some(&9));
}

#[test]
fn arc_zero_capacity_is_one() {
    let a: ArcCache<i32, i32, _> = ArcCache::new(0);
    assert_eq!(a.capacity(), 1);
}
