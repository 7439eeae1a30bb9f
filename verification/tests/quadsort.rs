use algorithm::quadsort::{
    cross_merge, monobound_binary_first, parity_merge, parity_swap_eight, parity_swap_sixteen, parity_swap_thirtytwo,
    partial_backward_merge, quad_merge, quad_merge_block, quad_swap, quad_swap_four, rotate_merge, rotate_merge_block,
    tail_merge, tail_swap, tiny_sort, try_exchange, twice_unguarded_insert,
};
use algorithm::{quad_sort, quad_sort_order_by, quicksort, quicksort_order_by};

fn numbers(n: usize, seed: u64) -> Vec<usize> {
    let mut x = seed.wrapping_mul(6364136223846793005).wrapping_add(1442695040888963407);
    let mut v = Vec::new();
    for _ in 0..n {
        x = x.wrapping_mul(6364136223846793005).wrapping_add(1442695040888963407);
        v.push(((x >> 33) as usize) % (n * 10 + 1));
    }
    v
}

#[test]
fn quad_sort_matches_std_sort() {
    for n in 0..300 {
        let mut v = numbers(n, n as u64);
        let mut w = v.clone();
        w.sort();
        quad_sort(&mut v);
        assert_eq!(v, w, "length {}", n);
    }
}

#[test]
fn quad_sort_random_large() {
    let mut v: Vec<usize> = (0..1999).map(|_| rand::random::<usize>() % 19990).collect();
    let mut w = v.clone();
    w.sort();
    quad_sort(&mut v);
    assert_eq!(v, w);
}

#[test]
fn quad_sort_order_by_descending() {
    let mut v = numbers(100, 7);
    let mut w = v.clone();
    w.sort_by(|a, b| b.cmp(a));
    quad_sort_order_by(&mut v, |a: &usize, b: &usize| a > b);
    assert_eq!(v, w);
}

#[test]
fn quad_sort_words() {
    let mut words = vec!["cherry", "banana", "apple", "date"];
    quad_sort(&mut words);
    assert_eq!(words, vec!["apple", "banana", "cherry", "date"]);
}

#[test]
fn quad_sort_keeps_equal_keys_together() {
    let mut v: Vec<(u8, u8)> = vec![(3, 0), (1, 1), (3, 2), (2, 3), (1, 4), (2, 5)];
    quad_sort_order_by(&mut v, |a: &(u8, u8), b: &(u8, u8)| a.0 < b.0);
    let keys: Vec<u8> = v.iter().map(|p| p.0).collect();
    assert_eq!(keys, vec![1, 1, 2, 2, 3, 3]);
}

#[test]
fn try_exchange_orders_two() {
    let mut v = vec![5, 3];
    assert!(try_exchange(&mut v, &|a: &i32, b: &i32| a < b, 0, 1));
    assert_eq!(v, vec![3, 5]);
    assert!(!try_exchange(&mut v, &|a: &i32, b: &i32| a < b, 0, 1));
    assert_eq!(v, vec![3, 5]);
    let mut e = vec![4, 4];
    assert!(try_exchange(&mut e, &|a: &i32, b: &i32| a < b, 0, 1));
}

#[test]
fn tiny_sort_small_only() {
    let lt = |a: &i32, b: &i32| a < b;
    let mut v = vec![4, 1, 3, 2];
    tiny_sort(&mut v, &lt);
    assert_eq!(v, vec![1, 2, 3, 4]);
    let mut t = vec![3, 2, 1];
    tiny_sort(&mut t, &lt);
    assert_eq!(t, vec![1, 2, 3]);
    let mut big = vec![5, 4, 3, 2, 1];
    tiny_sort(&mut big, &lt);
    assert_eq!(big, vec![5, 4, 3, 2, 1]);
}

#[test]
fn quad_swap_four_sorts_front() {
    let mut v = vec![9, 7, 8, 6, 0];
    quad_swap_four(&mut v, &|a: &i32, b: &i32| a < b);
    assert_eq!(v, vec![6, 7, 8, 9, 0]);
}

#[test]
fn twice_unguarded_insert_finishes_sort() {
    let mut v = vec![2, 5, 9, 1, 7, 3];
    twice_unguarded_insert(&mut v, &|a: &i32, b: &i32| a < b, 3);
    assert_eq!(v, vec![1, 2, 3, 5, 7, 9]);
}

#[test]
fn parity_and_cross_merge() {
    let lt = |a: &i32, b: &i32| a < b;
    let mut from = vec![1, 4, 6, 2, 3, 7, 100];
    let mut dest = vec![0; 8];
    parity_merge(&mut dest, &mut from, 3, 4, &lt);
    assert_eq!(dest, vec![1, 2, 3, 4, 6, 7, 100, 0]);
    let mut dest2 = vec![9; 7];
    cross_merge(&mut dest2, &mut from, 3, 3, &lt);
    assert_eq!(dest2, vec![1, 2, 3, 4, 6, 7, 9]);
}

#[test]
fn partial_backward_merge_two_runs() {
    let lt = |a: &i32, b: &i32| a < b;
    let mut v = vec![2, 8, 9, 1, 5];
    let mut swap = vec![0; 5];
    partial_backward_merge(&mut v, &mut swap, 3, &lt);
    assert_eq!(v, vec![1, 2, 5, 8, 9]);
    let mut short = vec![3, 1];
    partial_backward_merge(&mut short, &mut swap, 2, &lt);
    assert_eq!(short, vec![3, 1]);
}

#[test]
fn tail_swap_sorts_all_lengths() {
    let lt = |a: &usize, b: &usize| a < b;
    for n in 0..70 {
        let mut v = numbers(n, 3 * n as u64 + 1);
        let mut w = v.clone();
        w.sort();
        let mut swap = vec![0usize; n];
        tail_swap(&mut v, &mut swap, &lt);
        assert_eq!(v, w, "length {}", n);
    }
}

#[test]
fn parity_swaps_sort_fronts() {
    let lt = |a: &usize, b: &usize| a < b;
    for &k in &[8usize, 16, 32] {
        let mut v = numbers(40, k as u64);
        let mut front = v[..k].to_vec();
        front.sort();
        let rest = v[k..].to_vec();
        let mut swap = vec![0usize; 32];
        match k {
            8 => parity_swap_eight(&mut v, &mut swap, &lt),
            16 => parity_swap_sixteen(&mut v, &mut swap, &lt),
            _ => parity_swap_thirtytwo(&mut v, &mut swap, &lt),
        }
        assert_eq!(&v[..k], &front[..]);
        assert_eq!(&v[k..], &rest[..]);
    }
}

#[test]
fn quad_swap_sorts_blocks() {
    let lt = |a: &usize, b: &usize| a < b;
    let mut v = numbers(75, 11);
    let orig = v.clone();
    quad_swap(&mut v, &lt);
    for b in 0..2 {
        let mut blk = orig[b * 32..b * 32 + 32].to_vec();
        blk.sort();
        assert_eq!(&v[b * 32..b * 32 + 32], &blk[..]);
    }
    let mut tail = orig[64..].to_vec();
    tail.sort();
    assert_eq!(&v[64..], &tail[..]);
}

#[test]
fn tail_merge_merges_runs() {
    let lt = |a: &usize, b: &usize| a < b;
    let mut v = numbers(100, 5);
    let mut w = v.clone();
    w.sort();
    quad_swap(&mut v, &lt);
    let mut swap = vec![0usize; 100];
    tail_merge(&mut v, &mut swap, 32, &lt);
    assert_eq!(v, w);
}

#[test]
fn tail_merge_short_room_leaves_runs() {
    let lt = |a: &usize, b: &usize| a < b;
    let mut v = vec![3usize, 1, 2, 0];
    let mut swap = vec![0usize; 1];
    tail_merge(&mut v, &mut swap, 1, &lt);
    assert_eq!(v, vec![3, 1, 2, 0]);
}

#[test]
fn quad_merge_block_merges_four() {
    let lt = |a: &i32, b: &i32| a < b;
    let mut v = vec![1, 5, 2, 6, 0, 7, 3, 4, 99];
    let mut swap = vec![0; 8];
    quad_merge_block(&mut v, &mut swap, 2, &lt);
    assert_eq!(v, vec![0, 1, 2, 3, 4, 5, 6, 7, 99]);
}

#[test]
fn quad_merge_sorts_and_gives_half_width() {
    let lt = |a: &usize, b: &usize| a < b;
    for n in [33usize, 100, 128, 129, 600, 1000] {
        let mut v = numbers(n, n as u64 + 7);
        let mut w = v.clone();
        w.sort();
        quad_swap(&mut v, &lt);
        let mut swap = vec![0usize; n];
        let block = quad_merge(&mut v, &mut swap, 32, &lt);
        assert_eq!(v, w, "length {}", n);
        // the width of the runs grows by four from 32 until four runs cover all
        let mut width = 32;
        while 4 * width < n {
            width *= 4;
        }
        assert_eq!(block, 2 * width, "length {}", n);
    }
}

#[test]
fn monobound_binary_first_finds_split() {
    let lt = |a: &i32, b: &i32| a < b;
    // key at index 0 is 5; search the sorted span [2, 9)
    let mut v = vec![5, 0, 1, 3, 5, 5, 6, 8, 9];
    assert_eq!(6, monobound_binary_first(&mut v, 2, 0, 7, &lt));
    let mut v = vec![0, 7, 1, 2, 3];
    assert_eq!(4, monobound_binary_first(&mut v, 2, 1, 3, &lt));
    let mut v = vec![0, -1, 1, 2, 3];
    assert_eq!(1, monobound_binary_first(&mut v, 2, 1, 3, &lt));
}

#[test]
fn rotate_merge_block_moves_nothing() {
    let lt = |a: &i32, b: &i32| a < b;
    let mut v = vec![1, 2, 3, 4, 5, 6];
    let mut swap = vec![0; 6];
    rotate_merge_block(&mut v, &mut swap, 3, 3, &lt);
    assert_eq!(v, vec![1, 2, 3, 4, 5, 6]);
    let mut v = vec![4, 5, 6, 0, 7, 8, 9];
    rotate_merge_block(&mut v, &mut swap, 3, 4, &lt);
    assert_eq!(v, vec![4, 5, 6, 0, 7, 8, 9]);
}

#[test]
fn rotate_merge_merges_two_runs() {
    let lt = |a: &i32, b: &i32| a < b;
    let mut v = vec![2, 4, 6, 8, 1, 3, 5];
    let mut swap = vec![0; 7];
    rotate_merge(&mut v, &mut swap, 4, &lt);
    assert_eq!(v, vec![1, 2, 3, 4, 5, 6, 8]);
    let mut v = vec![3, 1, 2];
    rotate_merge(&mut v, &mut swap, 3, &lt);
    assert_eq!(v, vec![3, 1, 2]);
}

#[test]
fn quicksort_sorts_both_ways() {
    for n in [0usize, 1, 5, 31, 32, 33, 100, 513] {
        let mut v = numbers(n, 7 + n as u64);
        let mut w = v.clone();
        w.sort();
        quicksort(&mut v);
        assert_eq!(v, w, "length {}", n);
        let mut d = numbers(n, 11 + n as u64);
        let mut e = d.clone();
        e.sort_by(|a, b| b.cmp(a));
        quicksort_order_by(&mut d, |a, b| a > b);
        assert_eq!(d, e, "length {}", n);
    }
}

#[test]
fn rotate_merge_leaves_longer_input() {
    let lt = |a: &i32, b: &i32| a < b;
    let mut v = vec![1, 2, 3, 4, 5, 6, 7];
    let mut swap = vec![0; 7];
    rotate_merge(&mut v, &mut swap, 2, &lt);
    assert_eq!(v, vec![1, 2, 3, 4, 5, 6, 7]);
}
