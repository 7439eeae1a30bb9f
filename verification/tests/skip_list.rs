use algorithm::SkipList;

#[test]
fn skip_list_insert_counts() {
    let mut val = SkipList::new();
    val.insert(1);
    val.insert(10);
    val.insert(100);
    assert_eq!(val.len(), 3);
}

#[test]
fn skip_list_clear_empties() {
    let mut val = SkipList::new();
    val.insert(1);
    assert_eq!(val.len(), 1);
    val.clear();
    assert_eq!(val.len(), 0);
}

#[test]
fn skip_list_update_keeps_len() {
    let mut val = SkipList::new();
    val.insert(1);
    val.update(&1, 2);
    assert_eq!(val.len(), 1);
    assert_eq!(val.get_rank(&2), 1);
    assert_eq!(val.get_rank(&1), 0);
}

#[test]
fn skip_list_ranks() {
    let mut val = SkipList::new();
    val.insert(4);
    val.insert(2);
    val.insert(1);
    assert_eq!(val.get_rank(&1), 1);
    assert_eq!(val.get_rank(&4), 3);
    val.insert(3);
    assert_eq!(val.get_rank(&4), 4);
}

#[test]
fn skip_list_remove() {
    let mut val = SkipList::new();
    val.insert(4);
    val.insert(2);
    val.insert(1);
    assert!(val.remove(&2));
    assert!(!val.remove(&2));
    assert_eq!(val.len(), 2);
    assert_eq!(val.get_rank(&4), 2);
}

#[test]
fn skip_list_iter_gives_values_with_ranks() {
    let mut val = SkipList::new();
    val.insert(4);
    val.insert(2);
    val.insert(1);
    let items = val.iter();
    assert_eq!(items, vec![(&1, 0), (&2, 1), (&4, 2)]);
    let back: Vec<_> = items.into_iter().rev().map(|(v, _)| *v).collect();
    assert_eq!(back, vec![4, 2, 1]);
}

#[test]
fn skip_list_find_by_rank() {
    let mut val = SkipList::new();
    for v in [50, 10, 40, 20, 30] {
        val.insert(v);
    }
    assert_eq!(val.find_by_rank(1), Some(&10));
    assert_eq!(val.find_by_rank(3), Some(&30));
    assert_eq!(val.find_by_rank(5), Some(&50));
    assert_eq!(val.find_by_rank(0), None);
    assert_eq!(val.find_by_rank(6), None);
}

#[test]
fn skip_list_many_values_stay_sorted() {
    let mut val = SkipList::new();
    for i in 0..500u64 {
        val.insert((i * 7919) % 1000);
    }
    let items: Vec<u64> = val.iter().into_iter().map(|(v, _)| *v).collect();
    let mut sorted = items.clone();
    sorted.sort();
    assert_eq!(items, sorted);
    assert_eq!(val.len(), 500);
    for i in 0..250u64 {
        assert!(val.remove(&((i * 7919) % 1000)));
    }
    assert_eq!(val.len(), 250);
    let rest: Vec<u64> = val.iter().into_iter().map(|(v, _)| *v).collect();
    for (r, v) in rest.iter().enumerate() {
        assert_eq!(val.find_by_rank(r + 1), Some(v));
    }
}

#[test]
fn skip_list_update_moves_value() {
    let mut val = SkipList::new();
    val.insert(1);
    val.insert(2);
    val.update(&1, 3);
    let items: Vec<i32> = val.iter().into_iter().map(|(v, _)| *v).collect();
    assert_eq!(items, vec![2, 3]);
}

#[test]
fn skip_list_remove_missing_keeps_len() {
    let mut val = SkipList::new();
    val.insert(4);
    val.insert(2);
    val.insert(1);
    assert_eq!(val.len(), 3);
    val.remove(&3);
    assert_eq!(val.len(), 3);
    val.remove(&4);
    assert_eq!(val.len(), 2);
}
