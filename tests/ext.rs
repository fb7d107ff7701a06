use std::collections::HashMap;
use algorist::ext::slice::{max_sum, max_sum_from_iter, CountOccurrences, MaxSum};
use algorist::ext::tuple::TupleTransform;
use algorist::ext::vec::{Reversed, Rotated};

#[test]
fn test_count() {
    let v: Vec<usize> = vec![1, 2, 3, 2, 0, 1, 3, 3, 2, 1];
    assert_eq!(v.count(3), vec![1, 3, 3, 3]);
    let v: Vec<usize> = vec![3, 2, 8, 3];
    assert_eq!(v.count(8), vec![0, 0, 1, 2, 0, 0, 0, 0, 1]);
    assert_eq!(v[..2].count(3), vec![0, 0, 1, 1]);
    assert_eq!(v[..3].count(8), vec![0, 0, 1, 1, 0, 0, 0, 0, 1]);
}

#[test]
fn test_max_sum() {
    assert_eq!(max_sum(&[1, 2, 3, 4, 5]), 15);
    assert_eq!(max_sum(&[1, -2, 3, -4, 5]), 5);
    assert_eq!(max_sum(&[-1, -2, -3, -4, -5]), 0);
    assert_eq!(max_sum(&[1, 2, 3, 4, -1, 5, -1, -2, -3, -4, -5]), 14);
}

#[test]
fn test_max_sum_trait() {
    assert_eq!([1i64, 2, 3, 4, 5][..].max_sum(), 15);
    assert_eq!([1i64, -2, 3, -4, 5][..].max_sum(), 5);
    assert_eq!([-1i64, -2, -3, -4, -5][..].max_sum(), 0);
    assert_eq!([1i64, 2, 3, 4, -1, 5, -1, -2, -3, -4, -5][..].max_sum(), 14);
    let arr = [1i64, 2, 3, 4, 5];
    assert_eq!(arr[..].max_sum(), 15);
}

#[test]
fn test_max_sum_from_iter() {
    assert_eq!(max_sum_from_iter([1, 2, 3, 4, 5].iter().copied().collect()), 15);
    assert_eq!(max_sum_from_iter([1, -2, 3, -4, 5].iter().copied().collect()), 5);
    assert_eq!(max_sum_from_iter([-1, -2, -3, -4, -5].iter().copied().collect()), 0);
    assert_eq!(
        max_sum_from_iter([1, 2, 3, 4, -1, 5, -1, -2, -3, -4, -5].iter().copied().collect()),
        14
    );
}

#[test]
fn max_sum_of_nothing() {
    assert_eq!(max_sum(&[]), 0);
    assert_eq!(max_sum(&[-3, 7, -1, 2]), 8);
}

#[test]
fn test_rotated_left() {
    let v = vec![1, 2, 3, 4, 5];
    assert_eq!(v.rotated_left(2), vec![3, 4, 5, 1, 2]);
}

#[test]
fn test_rotated_right() {
    let v = vec![1, 2, 3, 4, 5];
    assert_eq!(v.rotated_right(2), vec![4, 5, 1, 2, 3]);
}

#[test]
fn rotated_by_whole_length() {
    assert_eq!(vec![1, 2, 3].rotated_left(3), vec![1, 2, 3]);
    assert_eq!(vec![1, 2, 3].rotated_right(0), vec![1, 2, 3]);
}

#[test]
fn reversed_vectors() {
    assert_eq!(vec![1, 2, 3].reversed(), vec![3, 2, 1]);
    assert_eq!(Vec::<u8>::new().reversed(), Vec::<u8>::new());
}

#[test]
fn test_tuple_transform() {
    let (a, b) = (1, 2).transform(|(x, y)| (y, x));
    assert_eq!((a, b), (2, 1));
    let (a, b, c) = (1i64, 2, 3).transform(|(x, y, z)| (z, y, x));
    assert_eq!((a, b, c), (3, 2, 1));
    let (a, b, c) = (1i64, 2i32, "sdf").transform(|(x, y, z)| (z, x, y));
    assert_eq!((a, b, c), ("sdf", 1, 2));
}

use algorist::ext::iter::{Chunks, ChunksExt, FoldWhile, SlidingWindow, SlidingWindowExt};
use algorist::ext::vec::Sorted;

fn all_chunks(mut c: Chunks<i32>) -> Vec<Vec<i32>> {
    let mut out = Vec::new();
    while let Some(x) = c.next() {
        out.push(x);
    }
    out
}

fn all_pairs(mut w: SlidingWindow<i32>) -> Vec<(i32, i32)> {
    let mut out = Vec::new();
    while let Some(p) = w.next() {
        out.push(p);
    }
    out
}

#[test]
fn chunks() {
    let v = vec![1, 2, 3, 4, 5, 6, 7];
    let chunks = all_chunks(Chunks::new(v, 3));
    assert_eq!(chunks, vec![vec![1, 2, 3], vec![4, 5, 6], vec![7]]);
}

#[test]
fn chunks_ext() {
    let v = vec![1, 2, 3, 4, 5, 6, 7];
    let chunks = all_chunks(v.chunks(3));
    assert_eq!(chunks, vec![vec![1, 2, 3], vec![4, 5, 6], vec![7]]);
}

#[test]
fn chunks_of_zero_size() {
    assert_eq!(all_chunks(Chunks::new(vec![1, 2], 0)), Vec::<Vec<i32>>::new());
    assert_eq!(all_chunks(Chunks::new(vec![], 2)), Vec::<Vec<i32>>::new());
}

#[test]
fn test_from() {
    let v = vec![1, 2, 3, 4, 5];
    let mut w = SlidingWindow::new(v.clone());
    assert_eq!(w.next(), Some((1, 2)));
    assert_eq!(w.next(), Some((2, 3)));
    assert_eq!(w.next(), Some((3, 4)));
    assert_eq!(w.next(), Some((4, 5)));
    assert_eq!(w.next(), None);
}

#[test]
fn window_test_from() {
    let v = vec![1, 2, 3, 4, 5];
    let mut w = SlidingWindow::new(v.clone());
    assert_eq!(w.next(), Some((1, 2)));
    assert_eq!(w.next(), Some((2, 3)));
    assert_eq!(w.next(), Some((3, 4)));
    assert_eq!(w.next(), Some((4, 5)));
    assert_eq!(w.next(), None);

    let mut w = SlidingWindow::new(v);
    assert_eq!(w.next(), Some((1, 2)));
    assert_eq!(w.next(), Some((2, 3)));
    assert_eq!(w.next(), Some((3, 4)));
    assert_eq!(w.next(), Some((4, 5)));
    assert_eq!(w.next(), None);
}

#[test]
fn test_iter_window() {
    let v = vec![1, 2, 3, 4, 5];
    let mut w = v.clone().sliding_window();
    assert_eq!(w.next(), Some((1, 2)));
    assert_eq!(w.next(), Some((2, 3)));
    assert_eq!(w.next(), Some((3, 4)));
    assert_eq!(w.next(), Some((4, 5)));
    assert_eq!(w.next(), None);
}

#[test]
fn window_test_iter_window() {
    let v = vec![1, 2, 3, 4, 5];
    let mut w = v.sliding_window();
    assert_eq!(w.next(), Some((1, 2)));
    assert_eq!(w.next(), Some((2, 3)));
    assert_eq!(w.next(), Some((3, 4)));
    assert_eq!(w.next(), Some((4, 5)));
    assert_eq!(w.next(), None);

    let v = vec![1, 2, 3, 4, 5];
    let mut w = all_pairs(v.sliding_window()).into_iter().map(|(a, b)| a + b).filter(|&x| x != 5);
    assert_eq!(w.next(), Some(3));
    assert_eq!(w.next(), Some(7));
    assert_eq!(w.next(), Some(9));
    assert_eq!(w.next(), None);
}

#[test]
fn window_of_short_vectors() {
    assert_eq!(all_pairs(SlidingWindow::new(vec![])), vec![]);
    assert_eq!(all_pairs(SlidingWindow::new(vec![12])), vec![]);
}

#[test]
fn fold_while_inner() {
    assert_eq!(FoldWhile::Continue(3).into_inner(), 3);
    assert_eq!(FoldWhile::Break(4).into_inner(), 4);
}

#[test]
fn test_sorted() {
    let v = vec![3, 2, 1];
    assert_eq!(v.sorted(), vec![1, 2, 3]);
}

#[test]
fn test_sorted_dedup() {
    let v = vec![1, 2, 2, 3, 1];
    assert_eq!(v.sorted_dedup(), vec![1, 2, 3]);
}

#[test]
fn sorted_keeps_duplicates() {
    assert_eq!(vec![5, -1, 5, 0, -1].sorted(), vec![-1, -1, 0, 5, 5]);
    assert_eq!(Vec::<i64>::new().sorted_dedup(), Vec::<i64>::new());
}

#[test]
fn test_group() {
    let v: Vec<usize> = vec![1, 2, 3, 5, 2, 0, 1, 3, 3, 2, 1];
    let mut map = HashMap::new();
    map.insert(0, vec![4]);
    map.insert(1, vec![0, 5]);
    map.insert(3, vec![1, 2, 3]);
    assert_eq!(v.count(5).group(false), map);

    let mut map = HashMap::new();
    map.insert(0, vec![4]);
    map.insert(1, vec![5]);
    map.insert(3, vec![1, 2, 3]);
    assert_eq!(v.count(5).group(true), map);
}
