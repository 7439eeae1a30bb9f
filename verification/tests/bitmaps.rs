use algorithm::{BitMap, RoaringBitMap};

#[test]
fn test_display() {
    let mut m = RoaringBitMap::new();
    m.add_many(&vec![1, 3, 9, 10240000111]);
    assert_eq!(m.to_string(), "len:4-val:{1,3,9,10240000111}".to_string());
}

#[test]
fn test_nextback() {
    let mut m = RoaringBitMap::new();
    m.add_many(&vec![1, 3, 9, 10240000111]);
    let vec = m.iter().into_iter().rev().collect::<Vec<_>>();
    assert_eq!(vec, vec![10240000111, 9, 3, 1]);
}

#[test]
fn bitmap_display_puts_space_after_later_numbers() {
    let mut m = BitMap::new(100);
    m.add_many(&vec![1, 3, 9]);
    assert_eq!(m.to_string(), "len:3-val:{1,3 ,9 }".to_string());
    let e = BitMap::new(8);
    assert_eq!(e.to_string(), "len:0-val:{}".to_string());
}

#[test]
fn bitmap_add_remove_contains() {
    let mut m = BitMap::new(64);
    m.add(3);
    m.add(3);
    m.add(40);
    assert_eq!(m.len(), 2);
    assert!(m.contains(&3));
    assert!(!m.contains(&4));
    assert!(m.remove(3));
    assert!(!m.remove(3));
    assert_eq!(m.iter(), vec![40]);
}

#[test]
fn bitmap_ranges_are_inclusive() {
    let mut m = BitMap::new(64);
    m.add_range(2, 5);
    assert_eq!(m.iter(), vec![2, 3, 4, 5]);
    m.remove_range(3, 4);
    assert_eq!(m.iter(), vec![2, 5]);
}

#[test]
fn bitmap_set_operations() {
    let mut a = BitMap::new(32);
    a.add_many(&vec![1, 2, 3]);
    let mut b = BitMap::new(32);
    b.add_many(&vec![2, 3, 4]);
    assert_eq!(a.intersect(&b).iter(), vec![2, 3]);
    assert_eq!(a.union(&b).iter(), vec![1, 2, 3, 4]);
    let mut c = BitMap::new(32);
    c.add_many(&vec![2, 3]);
    assert!(a.contains_sub(&c));
    assert!(!c.contains_sub(&a));
}

#[test]
fn bitmap_retain_keeps_chosen() {
    let mut m = BitMap::new(32);
    m.add_many(&vec![1, 2, 3, 4]);
    m.retain(|v| v % 2 == 0);
    assert_eq!(m.iter(), vec![2, 4]);
    assert_eq!(m.len(), 2);
}

#[test]
fn roaring_add_remove_contains() {
    let mut m = RoaringBitMap::new();
    m.add(5);
    m.add(70000);
    m.add(5);
    assert_eq!(m.len(), 2);
    assert!(m.contains(&70000));
    assert!(m.remove(5));
    assert!(!m.contains(&5));
    assert_eq!(m.iter(), vec![70000]);
}

#[test]
fn roaring_ranges_and_sets() {
    let mut a = RoaringBitMap::new();
    a.add_range(10, 14);
    assert_eq!(a.iter(), vec![10, 11, 12, 13, 14]);
    a.remove_range(11, 12);
    assert_eq!(a.iter(), vec![10, 13, 14]);
    let mut b = RoaringBitMap::new();
    b.add_many(&vec![13, 99]);
    assert_eq!(a.intersect(&b).iter(), vec![13]);
    assert_eq!(a.union(&b).iter(), vec![10, 13, 14, 99]);
    assert!(!a.contains_sub(&b));
}
