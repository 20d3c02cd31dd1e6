use goish::slices::iter::{All, AppendSeq, Backward, Chunk, Collect, Sorted, SortedFunc, SortedStableFunc, Values};
use goish::slices::slices::{
    Clip, Clone as CloneSlice, Compact, CompactFunc, Compare, CompareFunc, Concat, Contains, ContainsFunc, Delete,
    DeleteFunc, Equal, EqualFunc, Grow, Index, IndexFunc, IndexFuncOwned, Insert, Repeat, Replace, Reverse,
};
use goish::slices::sort::{
    BinarySearch, BinarySearchFunc, IsSorted, IsSortedFunc, Max, MaxFunc, Min, MinFunc,
};

#[test]
fn equal_and_compare() {
    assert!(Equal(&[1, 2, 3], &[1, 2, 3]));
    assert!(!Equal(&[1, 2, 3], &[1, 2]));
    assert!(!Equal(&[1, 2, 3], &[1, 2, 4]));
    assert_eq!(Compare(&[1, 2, 3], &[1, 2, 3]), 0);
    assert_eq!(Compare(&[1, 2], &[1, 2, 3]), -1);
    assert_eq!(Compare(&[1, 3], &[1, 2, 3]), 1);
    assert_eq!(Compare::<i64>(&[], &[]), 0);
}

#[test]
fn index_and_contains() {
    let s = [5, 7, 9, 7];
    assert_eq!(Index(&s, &7), 1);
    assert_eq!(Index(&s, &8), -1);
    assert!(Contains(&s, &9));
    assert!(!Contains(&s, &1));
}

#[test]
fn compact_removes_consecutive_duplicates() {
    assert_eq!(Compact(vec![1, 1, 2, 3, 3, 3, 1]), vec![1, 2, 3, 1]);
    assert_eq!(Compact::<i64>(vec![]), Vec::<i64>::new());
}

#[test]
fn compact_is_idempotent_and_leaves_no_adjacent_equal() {
    let once = Compact(vec![1, 1, 2, 2, 2, 1]);
    assert_eq!(once, vec![1, 2, 1]);
    assert!(once.windows(2).all(|w| w[0] != w[1]));
    assert_eq!(Compact(once.clone()), once);
}

#[test]
fn concat_delete_insert_replace() {
    let parts = vec![vec![1, 2], vec![], vec![3]];
    assert_eq!(Concat(&parts), vec![1, 2, 3]);
    assert_eq!(Delete(vec![0, 1, 2, 3, 4], 1, 3), vec![0, 3, 4]);
    assert_eq!(Insert(vec![0, 3], 1, &[1, 2]), vec![0, 1, 2, 3]);
    assert_eq!(Insert(vec![0, 3], 2, &[]), vec![0, 3]);
    assert_eq!(Replace(vec![0, 1, 2, 3], 1, 3, &[9]), vec![0, 9, 3]);
    assert_eq!(Replace(vec![0, 1], 1, 1, &[5, 6]), vec![0, 5, 6, 1]);
}

#[test]
fn clone_reverse_repeat() {
    assert_eq!(CloneSlice(&[1, 2]), vec![1, 2]);
    let mut v = vec![1, 2, 3];
    Reverse(&mut v);
    assert_eq!(v, vec![3, 2, 1]);
    assert_eq!(Repeat(&[1, 2], 3), vec![1, 2, 1, 2, 1, 2]);
    assert_eq!(Repeat::<i64>(&[], 4), Vec::<i64>::new());
    assert_eq!(Repeat(&[7], 0), Vec::<i64>::new());
}

#[test]
fn grow_and_clip_keep_elements() {
    let v = Grow(vec![1, 2], 10);
    assert!(v.capacity() >= 12);
    assert_eq!(v, vec![1, 2]);
    let c = Clip(v);
    assert_eq!(c, vec![1, 2]);
}

#[test]
fn func_variants() {
    assert!(EqualFunc(&[1, 2], &[2, 4], |a: &i64, b: &i64| *a * 2 == *b));
    assert!(!EqualFunc(&[1, 2], &[2, 5], |a: &i64, b: &i64| *a * 2 == *b));
    assert_eq!(CompareFunc(&[1, 2], &[1, 3], |a: &i64, b: &i64| *a - *b), -1);
    assert_eq!(CompareFunc(&[1, 2, 0], &[1, 2], |a: &i64, b: &i64| *a - *b), 1);
    assert_eq!(IndexFunc(&[1, 4, 6], |x: &i64| *x % 2 == 0), 1);
    assert_eq!(IndexFunc(&[1, 3], |x: &i64| *x % 2 == 0), -1);
    assert_eq!(IndexFuncOwned(&[1, 4, 6], |x: i64| x > 4), 2);
    assert!(ContainsFunc(&[1, 4, 6], |x: i64| x == 4));
    assert!(!ContainsFunc(&[1, 4, 6], |x: i64| x == 5));
    assert_eq!(DeleteFunc(vec![1, 2, 3, 4], |x: &i64| *x % 2 == 0), vec![1, 3]);
    assert_eq!(CompactFunc(vec![1, 2, 4, 7, 8], |a: &i64, b: &i64| *a - *b == 1), vec![1, 4, 7]);
}

#[test]
fn sort_helpers() {
    assert!(IsSorted(&[1, 2, 2, 3]));
    assert!(!IsSorted(&[2, 1]));
    assert_eq!(Min(&[3, 1, 2]), 1);
    assert_eq!(Max(&[3, 1, 2]), 3);
    assert_eq!(BinarySearch(&[1, 3, 5, 7], &5), (2, true));
    assert_eq!(BinarySearch(&[1, 3, 5, 7], &4), (2, false));
    assert_eq!(BinarySearch(&[1, 3, 3, 3, 7], &3), (1, true));
    assert_eq!(BinarySearch(&[1, 3], &9), (2, false));
    assert!(IsSortedFunc(&[3, 2, 1], |a: &i64, b: &i64| *b - *a));
    assert_eq!(MinFunc(&[3, 1, 2], |a: &i64, b: &i64| *a - *b), 1);
    assert_eq!(MaxFunc(&[3, 1, 2], |a: &i64, b: &i64| *a - *b), 3);
    assert_eq!(BinarySearchFunc(&[10, 20, 30], &20, |e: &i64, t: &i64| *e - *t), (1, true));
    assert_eq!(BinarySearchFunc(&[10, 20, 30], &25, |e: &i64, t: &i64| *e - *t), (2, false));
}

#[test]
fn iter_bridge() {
    assert_eq!(Collect(vec![1, 2]), vec![1, 2]);
    assert_eq!(AppendSeq(vec![1], vec![2, 3]), vec![1, 2, 3]);
    assert_eq!(Values(&[4, 5]), vec![4, 5]);
    assert_eq!(All(&[4, 5]), vec![(0, 4), (1, 5)]);
    assert_eq!(Backward(&[4, 5]), vec![(1, 5), (0, 4)]);
    assert_eq!(Sorted(vec![3, 1, 2, 1]), vec![1, 1, 2, 3]);
    assert_eq!(SortedFunc(vec![3, 1, 2], |a: &i64, b: &i64| *b - *a), vec![3, 2, 1]);
    let pairs = vec![(1, 'a'), (0, 'b'), (1, 'c'), (0, 'd')];
    assert_eq!(
        SortedStableFunc(pairs, |a: &(i64, char), b: &(i64, char)| a.0 - b.0),
        vec![(0, 'b'), (0, 'd'), (1, 'a'), (1, 'c')]
    );
    assert_eq!(Chunk(vec![1, 2, 3, 4, 5], 2), vec![vec![1, 2], vec![3, 4], vec![5]]);
    assert_eq!(Chunk::<i64>(vec![], 3), Vec::<Vec<i64>>::new());
}
