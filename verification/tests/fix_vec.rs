use algorithm::FixedVec;

#[test]
fn fix_vec_iter_mut_doubles() {
    let mut val = FixedVec::new(5);
    val.insert_head(1);
    val.insert_head(2);
    val.insert_head(3);
    let mut m = 0;
    while let Some((_, v)) = val.iter_mut_at(m) {
        *v = *v * 2;
        m += 1;
    }
    assert_eq!(val.iter().into_iter().map(|(_, v)| *v).collect::<Vec<_>>(), vec![6, 4, 2]);
}

#[test]
fn fix_vec_iter_mut_at_gives_slots() {
    let mut v = FixedVec::new(5);
    v.insert_head(1);
    v.insert_head(2);
    v.insert_head(3);
    assert_eq!(v.iter_mut_at(0).map(|(i, x)| (i, *x)), Some((2, 3)));
    assert_eq!(v.iter_mut_at(2).map(|(i, x)| (i, *x)), Some((0, 1)));
    assert!(v.iter_mut_at(3).is_none());
}

#[test]
fn fix_vec_insert_head_slots() {
    let mut v = FixedVec::new(2);
    assert_eq!(v.insert_head(1), Some((0, &mut 1)));
    assert_eq!(v.insert_head(2), Some((1, &mut 2)));
    assert_eq!(v.insert_head(3), None);
    assert_eq!(v.len(), 2);
    assert_eq!(v.head(), Some(&2));
    assert_eq!(v.tail(), Some(&1));
}

#[test]
fn fix_vec_move_tail_keeps_slot() {
    let mut v = FixedVec::new(5);
    v.insert_tail(1);
    v.insert_tail(2);
    v.insert_tail(3);
    assert_eq!(v.get(1), Some(&2));
    assert_eq!(v.move_tail(1), Some(&mut 2));
    assert_eq!(v.tail(), Some(&2));
    assert_eq!(v.get(1), Some(&2));
    assert_eq!(v.head(), Some(&1));
    assert_eq!(v.iter().into_iter().map(|(_, x)| *x).collect::<Vec<_>>(), vec![1, 3, 2]);
}
