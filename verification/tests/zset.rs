use algorithm::ZSet;

#[test]
fn zset_remove_member() {
    let mut val = ZSet::new();
    val.add_or_update("aa", 10);
    val.add_or_update("bb", 12);
    assert_eq!(val.len(), 2);
    assert!(val.remove(&"bb"));
    assert!(!val.remove(&"bb"));
    assert_eq!(val.len(), 1);
}

#[test]
fn zset_update_keeps_one_entry() {
    let mut val = ZSet::new();
    val.add_or_update("aa", 10);
    val.add_or_update("bb", 12);
    assert_eq!(val.len(), 2);
    val.add_or_update("bb", 14);
    assert_eq!(val.len(), 2);
    assert_eq!(val.score(&"bb"), 14);
}

#[test]
fn zset_score_and_rank() {
    let mut val = ZSet::new();
    val.add_or_update("aa", 10);
    val.add_or_update("bb", 12);
    assert_eq!(val.score(&"bb"), 12);
    assert_eq!(val.len(), 2);
    assert_eq!(val.rank(&"bb"), 2);
    val.add_or_update("bb", 9);
    assert_eq!(val.rank(&"bb"), 1);
    assert_eq!(val.len(), 2);
    assert_eq!(val.rank(&"cc"), 0);
    assert_eq!(val.score(&"cc"), 0);
}

#[test]
fn zset_iter_in_rank_order() {
    let mut val = ZSet::new();
    val.add_or_update("aa", 10);
    val.add_or_update("bb", 12);
    let items = val.iter();
    assert_eq!(items, vec![(&"aa", 0, 10), (&"bb", 1, 12)]);
}

#[test]
fn zset_reverse_and_limit() {
    let mut val = ZSet::new_with(2, true);
    val.add_or_update("aa", 10);
    val.add_or_update("bb", 12);
    val.add_or_update("cc", 14);
    assert_eq!(val.len(), 2);
    assert!(!val.contains_key(&"cc"));
    assert_eq!(val.rank(&"bb"), 1);
    assert_eq!(val.score(&"bb"), -12);
    val.clear();
    assert_eq!(val.len(), 0);
}

#[test]
fn zset_same_score_later_first() {
    let mut val = ZSet::new();
    val.add_or_update_at("aa", 5, 100);
    val.add_or_update_at("bb", 5, 100);
    assert_eq!(val.rank(&"bb"), 1);
    assert_eq!(val.rank(&"aa"), 2);
    assert!(val.remove(&"bb"));
    assert_eq!(val.rank(&"aa"), 1);
    assert_eq!(val.score(&"aa"), 5);
}
