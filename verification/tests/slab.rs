use algorithm::Slab;

#[test]
fn slab_reuses_last_freed_slot() {
    let mut slab: Slab<String> = Slab::new();
    for _ in 0..100 {
        let k = slab.get_next();
        *slab.index_mut(&k) = format!("{}", k);
    }
    assert!(slab.len() == 100);
    for i in 0..100 {
        slab.remove(i);
    }
    assert!(slab.len() == 0);
    let k = slab.get_next();
    assert!(k == 99);
    assert!(slab.index(&k) == "99");
    let k = slab.get_reinit_next();
    assert!(k == 98);
    assert!(slab.index(&k) == "");
}

#[test]
fn slab_insert_and_get() {
    let mut slab = Slab::new();
    let k = slab.insert("slab");
    assert!(slab.get(k) == &"slab");
    let (k1, v) = slab.get_next_val();
    assert_eq!(k1, 1);
    assert_eq!(*v, "");
}

#[test]
fn slab_try_remove_and_contains() {
    let mut slab = Slab::new();
    let k = slab.get_next();
    let k1 = slab.get_next();
    *slab.index_mut(&k1) = "slab";
    assert!(slab.len() == 2);
    assert!(slab.contains_key(k));
    assert!(slab.try_remove(k) == true);
    assert!(slab.try_remove(k) == false);
    assert!(!slab.contains_key(k));
    assert!(slab.len() == 1);
    assert!(*slab.index(&k1) == "slab");
}

#[test]
fn slab_iter_and_drain() {
    let mut slab = Slab::new();
    slab.insert("hello");
    slab.insert("this");
    let items = slab.iter();
    assert_eq!(items, vec![(0, &"hello"), (1, &"this")]);
    let drained = slab.drain();
    assert_eq!(drained, vec!["hello", "this"]);
    assert!(slab.len() == 0);
}

#[test]
fn slab_retain_frees_refused() {
    let mut slab = Slab::new();
    slab.insert(1u32);
    slab.insert(2u32);
    slab.insert(3u32);
    slab.retain(|_, v| *v != 2);
    assert_eq!(slab.len(), 2);
    assert!(!slab.contains_key(1));
    let k = slab.insert(9);
    assert_eq!(k, 1);
}
