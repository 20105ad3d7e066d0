use binary_merge::iterators::SliceIterator;
use binary_merge::iterators::SortedIter;

#[test]
fn as_slice_shows_the_remaining_window() {
    let data: Vec<u64> = vec![1, 2, 3, 4];
    let it = SliceIterator(&data);
    assert_eq!(it.as_slice(), &[1, 2, 3, 4]);
}

#[test]
fn next_pops_from_the_front() {
    let data: Vec<u64> = vec![10, 20];
    let mut it = SliceIterator(&data);
    assert_eq!(it.next(), Some(&10));
    assert_eq!(it.next(), Some(&20));
    assert_eq!(it.next(), None);
    assert_eq!(it.as_slice(), &[] as &[u64]);
}

#[test]
fn drop_front_discards_a_prefix() {
    let data: Vec<u64> = vec![1, 2, 3, 4, 5];
    let mut it = SliceIterator(&data);
    it.drop_front(2);
    assert_eq!(it.as_slice(), &[3, 4, 5]);
    it.drop_front(3);
    assert_eq!(it.as_slice(), &[] as &[u64]);
}

#[test]
fn take_front_returns_the_prefix_and_advances() {
    let data: Vec<u64> = vec![1, 2, 3, 4, 5];
    let mut it = SliceIterator(&data);
    let front = it.take_front(3);
    assert_eq!(front, &[1, 2, 3]);
    assert_eq!(it.as_slice(), &[4, 5]);
    let rest = it.take_front(2);
    assert_eq!(rest, &[4, 5]);
    assert_eq!(it.as_slice(), &[] as &[u64]);
}

#[test]
fn take_front_of_zero_takes_nothing() {
    let data: Vec<u64> = vec![7];
    let mut it = SliceIterator(&data);
    let front = it.take_front(0);
    assert_eq!(front, &[] as &[u64]);
    assert_eq!(it.as_slice(), &[7]);
}

#[test]
fn sorted_iter_passes_its_producer_through() {
    let v: Vec<u64> = vec![1, 2, 3];
    let tagged = SortedIter::new(v.iter());
    let inner = tagged.into_inner();
    let collected: Vec<u64> = inner.copied().collect();
    assert_eq!(collected, v);
}
