use std::collections::hash_map::RandomState;

use algorithm::LfuCache;

fn collect_pairs<V>(pairs: Vec<(i32, V)>) -> LfuCache<i32, V, RandomState> {
    let mut lfu = LfuCache::new(2);
    for (k, v) in pairs {
        lfu.reserve(1);
        lfu.insert(k, v);
    }
    lfu
}

#[test]
fn lfu_test_insert() {
    let mut m = LfuCache::new(2);
    assert_eq!(m.len(), 0);
    m.insert(1, 2);
    assert_eq!(m.len(), 1);
    m.insert(2, 4);
    let _ = m.get(&2);
    assert_eq!(m.len(), 2);
    m.insert(3, 6);
    assert_eq!(m.len(), 2);
    assert_eq!(m.get(&1), None);
    assert_eq!(*m.get(&2).unwrap(), 4);
    assert_eq!(*m.get(&3).unwrap(), 6);
}

#[test]
fn lfu_test_replace() {
    let mut m = LfuCache::new(2);
    assert_eq!(m.len(), 0);
    m.insert(2, 4);
    assert_eq!(m.len(), 1);
    m.insert(2, 6);
    assert_eq!(m.len(), 1);
    assert_eq!(*m.get(&2).unwrap(), 6);
}

#[test]
fn lfu_test_clone() {
    let mut m = LfuCache::new(2);
    assert_eq!(m.len(), 0);
    m.insert(1, 2);
    assert_eq!(m.len(), 1);
    m.insert(2, 4);
    assert_eq!(m.len(), 2);
    let mut m2 = m.clone();
    m.clear();
    assert_eq!(*m2.get(&1).unwrap(), 2);
    assert_eq!(*m2.get(&2).unwrap(), 4);
    assert_eq!(m2.len(), 2);
}

#[test]
fn lfu_test_empty_remove() {
    let mut m: LfuCache<isize, bool, RandomState> = LfuCache::new(2);
    assert_eq!(m.remove(&0), None);
}

#[test]
fn lfu_test_empty_iter() {
    let mut m: LfuCache<isize, bool, RandomState> = LfuCache::new(2);
    assert_eq!(m.iter().into_iter().next(), None);
    assert_eq!(m.len(), 0);
    assert!(m.is_empty());
    assert_eq!(m.pop_usual(), None);
}

#[test]
fn lfu_test_lots_of_insertions() {
    let mut m = LfuCache::new(1000);

    for _ in 0..10 {
        assert!(m.is_empty());

        for i in 1..101 {
            m.insert(i, i);

            for j in 1..i + 1 {
                let r = m.get(&j);
                assert_eq!(r, Some(&j));
            }

            for j in i + 1..101 {
                let r = m.get(&j);
                assert_eq!(r, None);
            }
        }

        for i in 101..201 {
            assert!(!m.contains_key(&i));
        }

        for i in 1..101 {
            assert!(m.remove(&i).is_some());

            for j in 1..i + 1 {
                assert!(!m.contains_key(&j));
            }

            for j in i + 1..101 {
                assert!(m.contains_key(&j));
            }
        }

        for i in 1..101 {
            assert!(!m.contains_key(&i));
        }

        for i in 1..101 {
            m.insert(i, i);
        }

        for i in (1..101).rev() {
            assert!(m.remove(&i).is_some());

            for j in i..101 {
                assert!(!m.contains_key(&j));
            }

            for j in 1..i {
                assert!(m.contains_key(&j));
            }
        }
    }
}

#[test]
fn lfu_test_find_mut() {
    let mut m = LfuCache::new(3);
    m.insert(1, 12);
    m.insert(2, 8);
    m.insert(5, 14);
    let new = 100;
    match m.get_mut(&5) {
        None => panic!(),
        Some(x) => *x = new,
    }
    assert_eq!(m.get(&5), Some(&new));
}

#[test]
fn lfu_test_remove() {
    let mut m = LfuCache::new(3);
    m.insert(1, 2);
    assert_eq!(*m.get(&1).unwrap(), 2);
    m.insert(5, 3);
    assert_eq!(*m.get(&5).unwrap(), 3);
    m.insert(9, 4);
    assert_eq!(*m.get(&1).unwrap(), 2);
    assert_eq!(*m.get(&5).unwrap(), 3);
    assert_eq!(*m.get(&9).unwrap(), 4);
    assert_eq!(m.remove(&1).unwrap(), (1, 2));
    assert_eq!(m.remove(&5).unwrap(), (5, 3));
    assert_eq!(m.remove(&9).unwrap(), (9, 4));
    assert_eq!(m.len(), 0);
}

#[test]
fn lfu_test_is_empty() {
    let mut m = LfuCache::new(2);
    m.insert(1, 2);
    assert!(!m.is_empty());
    assert!(m.remove(&1).is_some());
    assert!(m.is_empty());
}

#[test]
fn lfu_test_pop() {
    let mut m = LfuCache::new(3);
    m.insert(3, 6);
    let _ = m.get(&3);
    m.insert(2, 4);
    let _ = m.get(&2);
    let _ = m.get(&2);
    let _ = m.get(&2);
    m.insert(1, 2);
    assert_eq!(m.len(), 3);
    assert_eq!(m.pop_unusual(), Some((1, 2)));
    assert_eq!(m.len(), 2);
    assert_eq!(m.pop_unusual(), Some((3, 6)));
    assert_eq!(m.len(), 1);
}

#[test]
fn lfu_test_iterate() {
    let mut m = LfuCache::new(32);
    for i in 0..32 {
        m.insert(i, i * 2);
    }
    assert_eq!(m.len(), 32);

    let mut observed: u32 = 0;

    for (k, v) in m.iter() {
        assert_eq!(*v, *k * 2);
        observed |= 1 << *k;
    }
    assert_eq!(observed, 0xFFFF_FFFF);
}

#[test]
fn lfu_test_keys() {
    let vec = vec![(1, 'a'), (2, 'b'), (3, 'c')];
    let map = collect_pairs(vec);
    let keys: Vec<_> = map.keys().into_iter().cloned().collect();
    assert_eq!(keys.len(), 3);
    assert!(keys.contains(&1));
    assert!(keys.contains(&2));
    assert!(keys.contains(&3));
}

#[test]
fn lfu_test_values() {
    let vec = vec![(1, 'a'), (2, 'b'), (3, 'c')];
    let map = collect_pairs(vec);
    let values: Vec<_> = map.values().into_iter().cloned().collect();
    assert_eq!(values.len(), 3);
    assert!(values.contains(&'a'));
    assert!(values.contains(&'b'));
    assert!(values.contains(&'c'));
}

#[test]
fn lfu_test_find() {
    let mut m = LfuCache::new(2);
    assert!(m.get(&1).is_none());
    m.insert(1, 2);
    match m.get(&1) {
        None => panic!(),
        Some(v) => assert_eq!(*v, 2),
    }
}

#[test]
fn lfu_test_eq() {
    let mut m1 = LfuCache::new(3);
    m1.insert(1, 2);
    m1.insert(2, 3);
    m1.insert(3, 4);

    let mut m2 = LfuCache::new(3);
    m2.insert(1, 2);
    m2.insert(2, 3);

    assert!(!m1.eq(&m2));

    m2.insert(3, 4);

    assert!(m1.eq(&m2));
}

#[test]
fn lfu_test_from_iter() {
    let xs = [(1, 1), (2, 2), (3, 3), (4, 4), (5, 5), (6, 6)];

    let map = collect_pairs(xs.iter().cloned().collect());

    for &(k, v) in &xs {
        assert_eq!(map.raw_get(&k), Some(&v));
    }
}

#[test]
fn lfu_test_size_hint() {
    let xs = [(1, 1), (2, 2), (3, 3), (4, 4), (5, 5), (6, 6)];

    let map = collect_pairs(xs.iter().cloned().collect());

    let mut iter = map.iter().into_iter();

    for _ in iter.by_ref().take(3) {}

    assert_eq!(iter.size_hint(), (3, Some(3)));
}

#[test]
fn lfu_test_iter_len() {
    let xs = [(1, 1), (2, 2), (3, 3), (4, 4), (5, 5), (6, 6)];

    let map = collect_pairs(xs.iter().cloned().collect());

    let mut iter = map.iter().into_iter();

    for _ in iter.by_ref().take(3) {}

    assert_eq!(iter.count(), 3);
}

#[test]
fn lfu_test_index() {
    let mut map = LfuCache::new(3);

    map.insert(1, 2);
    map.insert(2, 1);
    map.insert(3, 4);

    assert_eq!(*map.index(&2), 1);
}

#[test]
fn lfu_test_extend_iter() {
    let mut a = LfuCache::new(2);
    a.insert(1, "one");
    let mut b = LfuCache::new(3);
    b.insert(2, "two");
    b.insert(3, "three");

    while let Some((k, v)) = b.pop_usual() {
        a.reserve(1);
        a.insert(k, v);
    }

    assert_eq!(a.len(), 3);
    assert_eq!(*a.index(&1), "one");
    assert_eq!(*a.index(&2), "two");
    assert_eq!(*a.index(&3), "three");
}

#[test]
fn lfu_test_drain() {
    let mut a = LfuCache::new(3);
    a.insert(1, 1);
    a.insert(2, 2);
    let _ = a.get(&2);
    a.insert(3, 3);
    let _ = a.get(&3);
    let _ = a.get(&3);
    let _ = a.get(&3);

    assert_eq!(a.len(), 3);
    {
        let mut drain = a.drain().into_iter();
        assert_eq!(drain.next().unwrap(), (1, 1));
        assert_eq!(drain.next().unwrap(), (2, 2));
    }
    assert_eq!(a.len(), 0);
}

#[test]
fn lfu_evicts_least_visited() {
    let mut lfu = LfuCache::new(3);
    lfu.insert("hello", "algorithm");
    lfu.insert("this", "lru");
    let _ = lfu.get(&"hello");
    let _ = lfu.get(&"this");
    lfu.insert("now", "ok");
    lfu.insert("auth", "tickbh");
    assert!(lfu.len() == 3);
    assert_eq!(lfu.get(&"hello"), Some(&"algorithm"));
    assert_eq!(lfu.get(&"this"), Some(&"lru"));
    assert_eq!(lfu.get(&"now"), None);
}

#[test]
fn lfu_default_visits() {
    let mut lfu = LfuCache::new(3);
    lfu.insert("hello", "algorithm");
    lfu.insert("this", "lru");
    assert!(lfu.get_visit(&"this") == Some(5));
    assert!(lfu.get_visit(&"hello") == Some(5));
    assert_eq!(lfu.get_visit(&"none"), None);
    assert_eq!(lfu.get_default_count(), 4);
    lfu.set_default_count(10);
    assert_eq!(lfu.get_default_count(), 9);
    lfu.insert("new", "one");
    assert_eq!(lfu.get_visit(&"new"), Some(10));
}

#[test]
fn lfu_reduce_halves_counts() {
    let mut lfu = LfuCache::new(3);
    lfu.insert("hello", "algorithm");
    lfu.insert("this", "lru");
    lfu.set_reduce_count(100);
    assert_eq!(lfu.get_reduce_count(), 100);
    assert_eq!(lfu.get_visit(&"hello"), Some(5));
    assert_eq!(lfu.get_visit(&"this"), Some(5));
    for _ in 0..98 {
        let _ = lfu.get(&"this");
    }
    lfu.insert("hello", "new");
    assert_eq!(lfu.get_visit(&"this"), Some(51));
    assert_eq!(lfu.get_visit(&"hello"), Some(3));
    let keys = lfu.keys();
    assert_eq!(keys, vec![&"this", &"hello"]);
}

#[test]
fn lfu_keys_by_class() {
    let mut lfu = LfuCache::new(3);
    lfu.insert("hello", "algorithm");
    lfu.insert("this", "lru");
    let _ = lfu.get(&"this");
    assert_eq!(lfu.keys(), vec![&"this", &"hello"]);
    assert_eq!(lfu.values(), vec![&"lru", &"algorithm"]);
}

#[test]
fn lfu_pops_and_peeks() {
    let mut lfu = LfuCache::new(3);
    lfu.insert("hello", "algorithm");
    lfu.insert("this", "lru");
    let _ = lfu.get(&"this");
    assert!(lfu.peek_usual() == Some((&"this", &"lru")));
    assert!(lfu.peek_unusual() == Some((&"hello", &"algorithm")));
    assert_eq!(lfu.len(), 2);
    assert!(lfu.pop_usual() == Some(("this", "lru")));
    assert_eq!(lfu.len(), 1);
    assert!(lfu.pop_unusual() == Some(("hello", "algorithm")));
    assert!(lfu.pop_unusual().is_none());
}

#[test]
fn lfu_capacity_changes() {
    let mut lfu = LfuCache::new(2);
    assert_eq!(lfu.capacity(), 2);
    lfu.insert(1, 1);
    lfu.full_increase();
    assert_eq!(lfu.capacity(), 2);
    lfu.insert(2, 2);
    lfu.full_increase();
    assert_eq!(lfu.capacity(), 3);
    assert_eq!(lfu.full_decrease(), None);
    lfu.insert(3, 3);
    let _ = lfu.get(&2);
    assert_eq!(lfu.full_decrease(), Some((1, 1)));
    assert_eq!(lfu.capacity(), 2);
    assert_eq!(lfu.len(), 2);
}

#[test]
fn lfu_capture_insert_flags() {
    let mut lfu = LfuCache::new(1);
    assert_eq!(lfu.capture_insert(1, "a"), None);
    assert_eq!(lfu.capture_insert(1, "b"), Some((1, "a", true)));
    assert_eq!(lfu.capture_insert(2, "c"), Some((1, "b", false)));
    assert_eq!(lfu.raw_get(&2), Some(&"c"));
    assert_eq!(lfu.insert(3, "d"), Some("c"));
}

#[test]
fn lfu_retain_keeps_chosen() {
    let mut lfu = LfuCache::new(3);
    lfu.insert("hello", "algorithm");
    lfu.insert("this", "lru");
    lfu.insert("year", "2024");
    lfu.retain(|_, v| *v == "2024" || *v == "lru");
    assert!(lfu.len() == 2);
    assert!(lfu.get(&"this") == Some(&"lru"));
    assert!(lfu.get(&"hello").is_none());
}

#[test]
fn lfu_get_or_insert() {
    let mut lfu = LfuCache::new(2);
    assert_eq!(*lfu.get_or_insert("a", || 1), 1);
    assert_eq!(lfu.get_visit(&"a"), Some(5));
    assert_eq!(*lfu.get_or_insert("a", || 2), 1);
    assert_eq!(lfu.get_visit(&"a"), Some(6));
    assert_eq!(*lfu.get_or_insert("b", || 3), 3);
    assert_eq!(*lfu.get_or_insert("c", || 4), 4);
    assert_eq!(lfu.len(), 2);
    assert_eq!(lfu.raw_get(&"b"), None);
}

#[test]
fn lfu_get_or_insert_mut_changes_in_place() {
    let mut lfu = LfuCache::new(2);
    *lfu.get_or_insert_mut("a", || 1) += 10;
    assert_eq!(lfu.raw_get(&"a"), Some(&11));
    assert_eq!(lfu.get_visit(&"a"), Some(5));
    *lfu.get_or_insert_mut("a", || 100) *= 2;
    assert_eq!(lfu.raw_get(&"a"), Some(&22));
    assert_eq!(lfu.get_visit(&"a"), Some(6));
}

#[test]
fn lfu_get_or_insert_default() {
    let mut lfu: LfuCache<&str, i32, _> = LfuCache::new(2);
    assert_eq!(*lfu.get_or_insert_default("x"), 0);
    *lfu.get_or_insert_default_mut("x") += 7;
    assert_eq!(*lfu.get_or_insert_default("x"), 7);
    *lfu.get_or_insert_default_mut("y") += 3;
    assert_eq!(lfu.raw_get(&"y"), Some(&3));
    assert_eq!(lfu.len(), 2);
}

#[test]
fn lfu_ttl_at_times() {
    let mut lfu = LfuCache::new(3);
    lfu.set_check_step_at(1, 0);
    assert_eq!(lfu.get_check_step(), 1);
    assert_eq!(lfu.insert_with_ttl_at("help", "ok", 1, 0), None);
    lfu.insert("now", "algorithm");
    assert_eq!(lfu.len(), 2);
    // a zero time to live puts nothing
    assert_eq!(lfu.insert_with_ttl_at("zero", "no", 0, 0), None);
    assert!(!lfu.contains_key(&"zero"));
    // the sweep at 1000 ms drops "help", which expired then
    lfu.insert_with_ttl_at("author", "tickbh", 3, 1000);
    assert_eq!(lfu.len(), 2);
    assert!(!lfu.contains_key(&"help"));
    assert_eq!(lfu.get_ttl_at(&"author", 1000), Some(3));
    assert_eq!(lfu.get_ttl_at(&"now", 1000), Some(u64::MAX));
    lfu.del_ttl_at(&"author", 1500);
    assert_eq!(lfu.get_ttl_at(&"author", 1500), Some(u64::MAX));
    assert!(lfu.set_ttl_at(&"now", 2, 2000));
    assert_eq!(lfu.get_ttl_at(&"now", 3000), Some(1));
    // once expired, a read drops the entry
    assert_eq!(lfu.get_ttl_at(&"now", 4000), None);
    assert_eq!(lfu.len(), 1);
    assert!(!lfu.set_ttl_at(&"none", 2, 4000));
    assert_eq!(lfu.remove_with_ttl_at(&"author", 5000), Some(("author", "tickbh", u64::MAX)));
    assert_eq!(lfu.len(), 0);
}

#[test]
fn lfu_get_at_drops_expired() {
    let mut lfu = LfuCache::new(3);
    lfu.insert_with_ttl_at(1, 10, 2, 0);
    lfu.insert(2, 20);
    assert_eq!(lfu.get_at(&1, 1999), Some(&10));
    assert_eq!(lfu.get_at(&2, 5000), Some(&20));
    assert_eq!(lfu.get_at(&1, 2000), None);
    assert_eq!(lfu.len(), 1);
    assert_eq!(lfu.get_at(&3, 2000), None);
}

#[test]
fn lfu_clear_expire_at_sweeps() {
    let mut lfu = LfuCache::new(5);
    lfu.insert_with_ttl_at("a", 1, 1, 0);
    lfu.insert_with_ttl_at("b", 2, 10, 0);
    lfu.insert("c", 3);
    // the first sweep is due at once; the next is 120 later
    lfu.clear_expire_at(2000);
    assert!(!lfu.contains_key(&"a"));
    assert!(lfu.contains_key(&"b"));
    assert!(lfu.contains_key(&"c"));
    assert_eq!(lfu.remove_with_ttl_at(&"b", 2000), Some(("b", 2, 8)));
}

#[test]
fn lfu_test_mut_size_hint() {
    let xs = [(1, 1), (2, 2), (3, 3), (4, 4), (5, 5), (6, 6)];

    let mut map = collect_pairs(xs.iter().cloned().collect());
    let n = map.len();

    let mut iter = (0..n).map(|m| {
        let (_, v) = map.iter_mut_at(m).unwrap();
        *v *= 10;
    });

    for _ in iter.by_ref().take(3) {}

    assert_eq!(iter.size_hint(), (3, Some(3)));
}

#[test]
fn lfu_test_iter_mut_len() {
    let xs = [(1, 1), (2, 2), (3, 3), (4, 4), (5, 5), (6, 6)];

    let mut map = collect_pairs(xs.iter().cloned().collect());
    let n = map.len();

    let mut iter = (0..n).map(|m| {
        let (_, v) = map.iter_mut_at(m).unwrap();
        *v *= 10;
    });

    for _ in iter.by_ref().take(3) {}

    assert_eq!(iter.count(), 3);
}

#[test]
fn lfu_iter_mut_at_changes_values() {
    let xs = [(1, 1), (2, 2), (3, 3)];
    let mut map = collect_pairs(xs.iter().cloned().collect());
    let mut m = 0;
    while let Some((_, v)) = map.iter_mut_at(m) {
        *v += 100;
        m += 1;
    }
    assert_eq!(m, 3);
    assert!(map.iter_mut_at(3).is_none());
    for &(k, v) in &xs {
        assert_eq!(map.raw_get(&k), Some(&(v + 100)));
    }
}
