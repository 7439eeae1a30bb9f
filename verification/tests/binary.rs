use algorithm::{Binary, BinaryMut, BinaryRef, Bt};

#[test]
fn binary_binary_refs() {
    {
        let s = Binary::from_str("aaaa");
        let s1 = s.clone();
        assert!(s1.get_refs() == 0);
        drop(s1);
        assert!(s.get_refs() == 0);
    }
    {
        let b = Binary::from_vec(vec![1]);
        let b1 = b.clone();
        assert!(b1.get_refs() == 2);
        drop(b1);
        assert!(b.get_refs() == 1);
    }
}

#[test]
fn binary_read_and_advance() {
    let mut b = Binary::from_vec(vec![1, 2, 3, 4, 5]);
    assert_eq!(b.len(), 5);
    assert_eq!(b.get_next(), Some(1));
    assert_eq!(b.remaining(), 4);
    assert_eq!(b.advance_chunk(2), &[2, 3][..]);
    assert_eq!(b.chunk(), &[4, 5][..]);
    b.advance(2);
    assert!(b.is_empty());
    assert_eq!(b.get_next(), None);
    assert_eq!(b.into_slice_all(), Vec::<u8>::new());
}

#[test]
fn binary_mut_put_and_freeze() {
    let mut m = BinaryMut::new();
    m.put_slice(&[9, 8, 7]);
    assert_eq!(m.len(), 3);
    assert_eq!(m.get_next(), Some(9));
    assert_eq!(m.remaining(), 2);
    let b = m.freeze();
    assert_eq!(b.to_vec(), vec![8, 7]);
}

#[test]
fn binary_mut_mark_and_rewind() {
    let mut m = BinaryMut::from_vec(vec![1, 2, 3, 4]);
    m.advance(1);
    m.mark();
    m.advance(2);
    assert_eq!(m.remaining(), 1);
    assert!(m.rewind_mark());
    assert_eq!(m.remaining(), 3);
    assert_eq!(m.get_next(), Some(2));
}

#[test]
fn binary_mut_mark_after_reads() {
    let mut buf = BinaryMut::with_capacity(0);
    buf.put_slice(&[1, 2, 3, 4]);
    assert_eq!(buf.get_u8(), 1);
    buf.mark();
    assert_eq!(buf.get_u8(), 2);
    assert_eq!(buf.get_u8(), 3);
    assert!(buf.rewind_mark());
    assert_eq!(buf.get_u8(), 2);
    assert_eq!(buf.get_u8(), 3);
    assert_eq!(buf.get_u8(), 4);
    let mut fresh = BinaryMut::new();
    fresh.put_slice(&[5]);
    assert!(!fresh.rewind_mark());
    assert_eq!(fresh.get_u8(), 5);
}

#[test]
fn binary_ref_reads() {
    let data = [10u8, 20, 30];
    let mut r = BinaryRef::from_slice(&data);
    assert_eq!(r.len(), 3);
    assert_eq!(r.get_next(), Some(10));
    assert_eq!(r.advance_chunk(1), &[20][..]);
    assert_eq!(r.to_vec(), vec![30]);
    assert_eq!(r.into_slice_all(), vec![30]);
}
