use collection_trace::{coalesce, merge, CollectionIterator, SliceIterator};

#[test]
fn merge_sums_and_drops_what_cancels() {
    let a = vec![(1u64, 1), (3, 2)];
    let b = vec![(1u64, -1), (2, 5), (3, 1)];
    let mut target = vec![(9u64, 9)];
    merge(vec![&a[..], &b[..]], &mut target);
    assert_eq!(target, vec![(9, 9), (2, 5), (3, 3)]);
}

#[test]
fn merge_of_nothing_appends_nothing() {
    let mut target = vec![(4u64, 1)];
    merge(Vec::new(), &mut target);
    assert_eq!(target, vec![(4, 1)]);
    let empty: Vec<(u64, i32)> = Vec::new();
    merge(vec![&empty[..], &empty[..]], &mut target);
    assert_eq!(target, vec![(4, 1)]);
}

#[test]
fn merge_of_one_slice_copies_it() {
    let a = vec![(1u64, 7), (2, -3), (5, 1)];
    let empty: Vec<(u64, i32)> = Vec::new();
    let mut target = Vec::new();
    merge(vec![&empty[..], &a[..], &empty[..]], &mut target);
    assert_eq!(target, a);
}

#[test]
fn merge_of_three_slices() {
    let a = vec![("a".to_string(), 1), ("d".to_string(), 1)];
    let b = vec![("b".to_string(), 2), ("d".to_string(), 2)];
    let c = vec![("a".to_string(), -1), ("c".to_string(), 3), ("d".to_string(), -3), ("e".to_string(), 4)];
    let mut target = Vec::new();
    merge(vec![&a[..], &b[..], &c[..]], &mut target);
    assert_eq!(target, vec![("b".to_string(), 2), ("c".to_string(), 3), ("e".to_string(), 4)]);
}

#[test]
fn merge_keeps_the_tail_of_the_longest() {
    let a = vec![(1u64, 1)];
    let b = vec![(1u64, 1), (2, 1), (3, 1), (4, 1)];
    let mut target = Vec::new();
    merge(vec![&a[..], &b[..]], &mut target);
    assert_eq!(target, vec![(1, 2), (2, 1), (3, 1), (4, 1)]);
}

#[test]
fn merge_reaches_the_ends_of_the_weight_type() {
    let a = vec![(1u64, i32::MAX - 1), (2, i32::MIN + 1)];
    let b = vec![(1u64, 1), (2, -1)];
    let mut target = Vec::new();
    merge(vec![&a[..], &b[..]], &mut target);
    assert_eq!(target, vec![(1, i32::MAX), (2, i32::MIN)]);
}

#[test]
fn coalesce_sorts_sums_and_drops() {
    let mut items = vec![(2u64, 1), (1, 2), (2, -1), (1, 3), (3, 0), (0, 4)];
    coalesce(&mut items);
    assert_eq!(items, vec![(0, 4), (1, 5)]);
}

#[test]
fn coalesce_leaves_a_canonical_batch() {
    let mut items = vec![(1u64, 1), (2, -2), (3, 3)];
    coalesce(&mut items);
    assert_eq!(items, vec![(1, 1), (2, -2), (3, 3)]);
    let mut none: Vec<(u64, i32)> = Vec::new();
    coalesce(&mut none);
    assert_eq!(none, vec![]);
}

#[test]
fn coalesce_twice_is_coalesce_once() {
    let mut items = vec![(5u64, 1), (4, 1), (5, 1), (4, -1)];
    coalesce(&mut items);
    let once = items.clone();
    coalesce(&mut items);
    assert_eq!(items, once);
    assert_eq!(items, vec![(5, 2)]);
}

#[test]
fn slice_iterator_walks_the_slice() {
    let a = vec![(1u64, 7), (2, -3)];
    let mut cursor = SliceIterator::new(&a[..]);
    assert_eq!(cursor.peek(), Some((&1, 7)));
    assert_eq!(cursor.rest().to_vec(), a);
    assert_eq!(cursor.next(), Some((&1, 7)));
    assert_eq!(cursor.peek(), Some((&2, -3)));
    assert_eq!(cursor.rest().to_vec(), vec![(2, -3)]);
    assert_eq!(cursor.next(), Some((&2, -3)));
    assert_eq!(cursor.peek(), None);
    assert_eq!(cursor.next(), None);
    assert_eq!(cursor.next(), None);
    assert_eq!(cursor.rest().to_vec(), vec![]);
}

#[test]
fn slice_iterator_over_nothing() {
    let a: Vec<(u64, i32)> = Vec::new();
    let mut cursor = SliceIterator::new(&a[..]);
    assert_eq!(cursor.peek(), None);
    assert_eq!(cursor.next(), None);
}

#[test]
fn stream_gives_what_merge_writes() {
    let a = vec![(1u64, 1), (3, 2), (7, 1)];
    let b = vec![(1u64, -1), (2, 5), (3, 1)];
    let c = vec![(2u64, -5), (7, 2), (8, 1)];
    let mut target = Vec::new();
    merge(vec![&a[..], &b[..], &c[..]], &mut target);
    let mut stream = CollectionIterator::new(vec![&a[..], &b[..], &c[..]]);
    let mut out = Vec::new();
    while let Some((value, weight)) = stream.next() {
        out.push((*value, weight));
    }
    assert_eq!(out, target);
    assert_eq!(out, vec![(3, 3), (7, 3), (8, 1)]);
    assert_eq!(stream.next(), None);
}

#[test]
fn stream_over_nothing_ends_at_once() {
    let mut stream: CollectionIterator<u64> = CollectionIterator::new(Vec::new());
    assert_eq!(stream.next(), None);
    let a = vec![(1u64, 1)];
    let b = vec![(1u64, -1)];
    let mut stream = CollectionIterator::new(vec![&a[..], &b[..]]);
    assert_eq!(stream.next(), None);
}

#[test]
fn coalesce_of_a_falling_vector() {
    let mut items = vec![(5u64, 1), (4, 2), (3, 3), (2, 4), (1, 5)];
    coalesce(&mut items);
    assert_eq!(items, vec![(1, 5), (2, 4), (3, 3), (4, 2), (5, 1)]);
}

#[test]
fn coalesce_with_zeros_between_stretches() {
    let mut items = vec![(1u64, 1), (2, 0), (3, 1), (3, 1), (0, 0), (1, -1), (4, 2)];
    coalesce(&mut items);
    assert_eq!(items, vec![(3, 2), (4, 2)]);
}

#[test]
fn coalesce_of_strings() {
    let mut items = vec![("pear".to_string(), 1), ("apple".to_string(), 2), ("pear".to_string(), 2)];
    coalesce(&mut items);
    assert_eq!(items, vec![("apple".to_string(), 2), ("pear".to_string(), 3)]);
}

#[test]
fn stream_peek_does_not_move() {
    let a = vec![(1u64, 1), (3, 2)];
    let b = vec![(1u64, -1), (2, 5)];
    let mut stream = CollectionIterator::new(vec![&a[..], &b[..]]);
    assert_eq!(stream.peek(), Some((&2, 5)));
    assert_eq!(stream.peek(), Some((&2, 5)));
    assert_eq!(stream.next(), Some((&2, 5)));
    assert_eq!(stream.next(), Some((&3, 2)));
    assert_eq!(stream.peek(), None);
    assert_eq!(stream.next(), None);
}
