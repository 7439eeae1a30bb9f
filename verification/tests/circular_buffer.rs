use algorithm::CircularBuffer;

#[test]
fn test_iter() {
    let mut circular = CircularBuffer::new(2);
    assert_eq!(circular.is_empty(), true);
    circular.push_back(1);
    circular.push_back(2);
    let val: Vec<i32> = circular.iter().into_iter().map(|s| *s).collect();
    assert_eq!(val, vec![1, 2]);
    let val: Vec<i32> = circular.iter().into_iter().rev().map(|s| *s).collect();
    assert_eq!(val, vec![2, 1]);
}

#[test]
fn circular_push_back_drops_front_when_full() {
    let mut circular = CircularBuffer::new(2);
    circular.push_back(1);
    circular.push_back(2);
    circular.push_back(3);
    assert_eq!(circular.len(), 2);
    assert_eq!(circular.get(0), Some(&2));
    assert_eq!(circular.get(1), Some(&3));
    assert_eq!(circular.get(2), None);
}

#[test]
fn circular_push_front_drops_back_when_full() {
    let mut circular = CircularBuffer::new(2);
    circular.push_front(1);
    circular.push_front(2);
    assert_eq!(circular.get(0), Some(&2));
    circular.push_front(3);
    assert_eq!(circular.len(), 2);
    assert_eq!(circular.get(0), Some(&3));
    assert_eq!(circular.get(1), Some(&2));
}

#[test]
fn circular_inited_and_full() {
    let mut circular = CircularBuffer::new(2);
    circular.push_back(1);
    assert_eq!(circular.is_inited(), false);
    assert_eq!(circular.is_full(), false);
    circular.push_back(2);
    assert_eq!(circular.is_inited(), true);
    assert_eq!(circular.is_full(), true);
    circular.pop_back();
    assert_eq!(circular.is_inited(), true);
    assert_eq!(circular.is_full(), false);
    assert_eq!(circular.capacity(), 2);
}

#[test]
fn circular_pops() {
    let mut circular = CircularBuffer::new(3);
    circular.push_back(1);
    circular.push_back(2);
    circular.push_back(3);
    circular.pop_front();
    assert_eq!(circular.get(0), Some(&2));
    circular.pop_back();
    assert_eq!(circular.len(), 1);
    assert_eq!(circular.get(0), Some(&2));
    circular.push_back(4);
    circular.push_back(5);
    circular.push_back(6);
    let val: Vec<i32> = circular.iter().into_iter().map(|s| *s).collect();
    assert_eq!(val, vec![4, 5, 6]);
}

#[test]
fn circular_refill_after_pops_keeps_order() {
    let mut circular = CircularBuffer::new(3);
    circular.push_back(1);
    circular.push_back(2);
    circular.pop_back();
    circular.pop_back();
    circular.push_back(3);
    assert_eq!(circular.len(), 1);
    assert_eq!(circular.get(0), Some(&3));
    circular.push_front(4);
    let val: Vec<i32> = circular.iter().into_iter().map(|s| *s).collect();
    assert_eq!(val, vec![4, 3]);
}
