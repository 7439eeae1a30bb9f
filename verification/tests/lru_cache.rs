use std::collections::hash_map::RandomState;

use algorithm::LruCache;

fn collect_pairs<V>(pairs: Vec<(i32, V)>) -> LruCache<i32, V, RandomState> {
    let mut lru = LruCache::new(2);
    for (k, v) in pairs {
        lru.reserve(1);
        lru.insert(k, v);
    }
    lru
}

#[test]
fn lru_test_insert() {
    let mut m = LruCache::new(2);
    assert_eq!(m.len(), 0);
    m.insert(1, 2);
    assert_eq!(m.len(), 1);
    m.insert(2, 4);
    assert_eq!(m.len(), 2);
    m.insert(3, 6);
    assert_eq!(m.len(), 2);
    assert_eq!(m.get(&1), None);
    assert_eq!(*m.get(&2).unwrap(), 4);
    assert_eq!(*m.get(&3).unwrap(), 6);
}

#[test]
fn lru_test_replace() {
    let mut m = LruCache::new(2);
    assert_eq!(m.len(), 0);
    m.insert(2, 4);
    assert_eq!(m.len(), 1);
    m.insert(2, 6);
    assert_eq!(m.len(), 1);
    assert_eq!(*m.get(&2).unwrap(), 6);
}

#[test]
fn lru_test_clone() {
    let mut m = LruCache::new(2);
    assert_eq!(m.len(), 0);
    m.insert(1, 2);
    assert_eq!(m.len(), 1);
    m.insert(2, 4);
    assert_eq!(m.len(), 2);
    let mut m2 = m.clone();
    m.clear();
    assert_eq!(*m2.get(&1).unwrap(), 2);
    assert_eq!(*m2.get(&2).unwrap(), 4);
    assert_eq!(m2.len(), 2);
}

#[test]
fn lru_test_empty_remove() {
    let mut m: LruCache<isize, bool, RandomState> = LruCache::new(2);
    assert_eq!(m.remove(&0), None);
}

#[test]
fn lru_test_empty_iter() {
    let mut m: LruCache<isize, bool, RandomState> = LruCache::new(2);
    assert_eq!(m.iter().into_iter().next(), None);
    assert_eq!(m.len(), 0);
    assert!(m.is_empty());
    assert_eq!(m.drain().into_iter().next(), None);
}

#[test]
fn lru_test_lots_of_insertions() {
    let mut m = LruCache::new(1000);

    for _ in 0..10 {
        assert!(m.is_empty());

        for i in 1..101 {
            m.insert(i, i);

            for j in 1..i + 1 {
                let r = m.get(&j);
                assert_eq!(r, Some(&j));
            }

            for j in i + 1..101 {
                let r = m.get(&j);
                assert_eq!(r, None);
            }
        }

        for i in 101..201 {
            assert!(!m.contains_key(&i));
        }

        for i in 1..101 {
            assert!(m.remove(&i).is_some());

            for j in 1..i + 1 {
                assert!(!m.contains_key(&j));
            }

            for j in i + 1..101 {
                assert!(m.contains_key(&j));
            }
        }

        for i in 1..101 {
            assert!(!m.contains_key(&i));
        }

        for i in 1..101 {
            m.insert(i, i);
        }

        for i in (1..101).rev() {
            assert!(m.remove(&i).is_some());

            for j in i..101 {
                assert!(!m.contains_key(&j));
            }

            for j in 1..i {
                assert!(m.contains_key(&j));
            }
        }
    }
}

#[test]
fn lru_test_find_mut() {
    let mut m = LruCache::new(3);
    m.insert(1, 12);
    m.insert(2, 8);
    m.insert(5, 14);
    let new = 100;
    match m.get_mut(&5) {
        None => panic!(),
        Some(x) => *x = new,
    }
    assert_eq!(m.get(&5), Some(&new));
}

#[test]
fn lru_test_remove() {
    let mut m = LruCache::new(3);
    m.insert(1, 2);
    assert_eq!(*m.get(&1).unwrap(), 2);
    m.insert(5, 3);
    assert_eq!(*m.get(&5).unwrap(), 3);
    m.insert(9, 4);
    assert_eq!(*m.get(&1).unwrap(), 2);
    assert_eq!(*m.get(&5).unwrap(), 3);
    assert_eq!(*m.get(&9).unwrap(), 4);
    assert_eq!(m.remove(&1).unwrap(), (1, 2));
    assert_eq!(m.remove(&5).unwrap(), (5, 3));
    assert_eq!(m.remove(&9).unwrap(), (9, 4));
    assert_eq!(m.len(), 0);
}

#[test]
fn lru_test_is_empty() {
    let mut m = LruCache::new(2);
    m.insert(1, 2);
    assert!(!m.is_empty());
    assert!(m.remove(&1).is_some());
    assert!(m.is_empty());
}

#[test]
fn lru_test_pop() {
    let mut m = LruCache::new(3);
    m.insert(3, 6);
    m.insert(2, 4);
    m.insert(1, 2);
    assert_eq!(m.len(), 3);
    assert_eq!(m.pop(), Some((1, 2)));
    assert_eq!(m.len(), 2);
    assert_eq!(m.pop_last(), Some((3, 6)));
    assert_eq!(m.len(), 1);
}

#[test]
fn lru_test_iterate() {
    let mut m = LruCache::new(32);
    for i in 0..32 {
        m.insert(i, i * 2);
    }
    assert_eq!(m.len(), 32);

    let mut observed: u32 = 0;

    for (k, v) in m.iter() {
        assert_eq!(*v, *k * 2);
        observed |= 1 << *k;
    }
    assert_eq!(observed, 0xFFFF_FFFF);
}

#[test]
fn lru_test_keys() {
    let vec = vec![(1, 'a'), (2, 'b'), (3, 'c')];
    let map = collect_pairs(vec);
    let keys: Vec<_> = map.keys().into_iter().cloned().collect();
    assert_eq!(keys.len(), 3);
    assert!(keys.contains(&1));
    assert!(keys.contains(&2));
    assert!(keys.contains(&3));
}

#[test]
fn lru_test_values() {
    let vec = vec![(1, 'a'), (2, 'b'), (3, 'c')];
    let map = collect_pairs(vec);
    let values: Vec<_> = map.values().into_iter().cloned().collect();
    assert_eq!(values.len(), 3);
    assert!(values.contains(&'a'));
    assert!(values.contains(&'b'));
    assert!(values.contains(&'c'));
}

#[test]
fn lru_test_find() {
    let mut m = LruCache::new(2);
    assert!(m.get(&1).is_none());
    m.insert(1, 2);
    match m.get(&1) {
        None => panic!(),
        Some(v) => assert_eq!(*v, 2),
    }
}

#[test]
fn lru_test_eq() {
    let mut m1 = LruCache::new(3);
    m1.insert(1, 2);
    m1.insert(2, 3);
    m1.insert(3, 4);

    let mut m2 = LruCache::new(3);
    m2.insert(1, 2);
    m2.insert(2, 3);

    assert!(!m1.eq(&m2));

    m2.insert(3, 4);

    assert!(m1.eq(&m2));
}

#[test]
fn lru_test_from_iter() {
    let xs = [(1, 1), (2, 2), (3, 3), (4, 4), (5, 5), (6, 6)];

    let map = collect_pairs(xs.iter().cloned().collect());

    for &(k, v) in &xs {
        assert_eq!(map.raw_get(&k), Some(&v));
    }
}

#[test]
fn lru_test_size_hint() {
    let xs = [(1, 1), (2, 2), (3, 3), (4, 4), (5, 5), (6, 6)];

    let map = collect_pairs(xs.iter().cloned().collect());

    let mut iter = map.iter().into_iter();

    for _ in iter.by_ref().take(3) {}

    assert_eq!(iter.size_hint(), (3, Some(3)));
}

#[test]
fn lru_test_iter_len() {
    let xs = [(1, 1), (2, 2), (3, 3), (4, 4), (5, 5), (6, 6)];

    let map = collect_pairs(xs.iter().cloned().collect());

    let mut iter = map.iter().into_iter();

    for _ in iter.by_ref().take(3) {}

    assert_eq!(iter.count(), 3);
}

#[test]
fn lru_test_index() {
    let mut map = LruCache::new(2);

    map.insert(1, 2);
    map.insert(2, 1);
    map.insert(3, 4);

    assert_eq!(*map.index(&2), 1);
}

#[test]
#[should_panic]
fn lru_test_index_nonexistent() {
    let mut map = LruCache::new(2);

    map.insert(1, 2);
    map.insert(2, 1);
    map.insert(3, 4);

    map.index(&4);
}

#[test]
fn lru_test_drain() {
    let mut a = LruCache::new(3);
    a.insert(1, 1);
    a.insert(2, 2);
    a.insert(3, 3);

    assert_eq!(a.len(), 3);
    {
        let mut drain = a.drain().into_iter();
        assert_eq!(drain.next().unwrap(), (1, 1));
        assert_eq!(drain.next().unwrap(), (2, 2));
    }
    assert_eq!(a.len(), 0);
}

#[test]
fn lru_get_makes_entry_recent() {
    let mut m = LruCache::new(2);
    m.insert(1, 10);
    m.insert(2, 20);
    assert_eq!(m.get(&1), Some(&10));
    m.insert(3, 30);
    assert!(m.contains_key(&1));
    assert!(!m.contains_key(&2));
    assert_eq!(m.capture_insert(1, 11), Some((1, 10)));
    assert_eq!(m.get_key_value(&3), Some((&3, &30)));
    assert_eq!(m.capacity(), 2);
}

#[test]
fn lru_zero_capacity_holds_one() {
    let mut m = LruCache::new(0);
    assert_eq!(m.capacity(), 1);
    m.insert(1, 1);
    m.insert(2, 2);
    assert_eq!(m.len(), 1);
    assert_eq!(m.raw_get(&2), Some(&2));
}

#[test]
fn lru_retain_keeps_order() {
    let mut m = LruCache::new(5);
    for k in 1..=5 {
        m.insert(k, k * 10);
    }
    m.retain(|k, v| *k % 2 == 1 && *v > 10);
    let keys: Vec<i32> = m.keys().into_iter().copied().collect();
    assert_eq!(vec![5, 3], keys);
    assert_eq!(2, m.len());
    assert!(!m.contains_key(&1));
}

#[test]
fn lru_test_mut_size_hint() {
    let xs = [(1, 1), (2, 2), (3, 3), (4, 4), (5, 5), (6, 6)];

    let mut map = collect_pairs(xs.iter().cloned().collect());
    let n = map.len();

    let mut iter = (0..n).map(|m| {
        let (_, v) = map.iter_mut_at(m).unwrap();
        *v *= 10;
    });

    for _ in iter.by_ref().take(3) {}

    assert_eq!(iter.size_hint(), (3, Some(3)));
}

#[test]
fn lru_test_iter_mut_len() {
    let xs = [(1, 1), (2, 2), (3, 3), (4, 4), (5, 5), (6, 6)];

    let mut map = collect_pairs(xs.iter().cloned().collect());
    let n = map.len();

    let mut iter = (0..n).map(|m| {
        let (_, v) = map.iter_mut_at(m).unwrap();
        *v *= 10;
    });

    for _ in iter.by_ref().take(3) {}

    assert_eq!(iter.count(), 3);
}

#[test]
fn lru_iter_mut_at_changes_values() {
    let xs = [(1, 1), (2, 2), (3, 3)];
    let mut map = collect_pairs(xs.iter().cloned().collect());
    let mut m = 0;
    while let Some((_, v)) = map.iter_mut_at(m) {
        *v += 100;
        m += 1;
    }
    assert_eq!(m, 3);
    assert!(map.iter_mut_at(3).is_none());
    for &(k, v) in &xs {
        assert_eq!(map.raw_get(&k), Some(&(v + 100)));
    }
}
